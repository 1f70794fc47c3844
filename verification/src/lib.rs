//! A formatter that truncates its output, the gathering of dotted
//! configuration keys into nested records, the settings and records of Kafka
//! consumers and producers, the text around an instrumented run, and two
//! memory probes of a WebAssembly guest.

pub mod fields;
pub mod instrument;
pub mod kafka;
pub mod text;
pub mod truncate;
pub mod wasm_guest;
