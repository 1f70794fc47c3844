# playground

Formatting, configuration-gathering, messaging and instrumentation logic,
written in Verus and proved against its contracts, with the programs that run
it around it.

- `src/truncate.rs` — a formatter that forwards at most a fixed number of
  bytes to any text sink, runs of writes and values rendered through it, and
  the laws of truncation.
- `src/fields.rs` — gathering dotted keys (`fields.<name>.<property>`) into
  nested properties records, the top-level record, their error messages, and
  the laws of gathering (among them: the order of the entries does not matter).
- `src/kafka.rs` — client settings, subscriptions, payload text, metadata
  descriptions and produced records of the Kafka clients.
- `src/instrument.rs` — the banner, report and separator of instrumented runs.
- `src/wasm_guest.rs` — the memory probes and the greeting of a WebAssembly
  guest.
- `src/text.rs` — decimal rendering.
- `app/` — the programs: I/O, runtimes, the web server and the Kafka, AWS and
  serde plumbing.
- `tests/` — tests of the library on concrete values.

Not included: the programs that host the WebAssembly guest (the wasmtime
embedding and the component bindings) and the Pub/Sub emulator client. They
only drive those runtimes and services and print what comes back; the one
piece of logic among them, the guest's greeting, is in `src/wasm_guest.rs`.
