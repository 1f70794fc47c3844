[package]
name = "playground"
version = "0.1.0"
edition = "2021"
publish = false

[dependencies]
anyhow = "=1.0.104"
async-trait = "=0.1.92"
aws-config = { version = "=1.13.0", features = ["behavior-version-latest"] }
aws-credential-types = "=1.3.1"
aws-smithy-runtime-api = "=1.19.2"
clap = { version = "=4.6.7", features = ["derive"] }
dotenv = "=0.15.0"
env_logger = "=0.11.11"
futures = "=0.3.34"
humansize = "=2.1.3"
hyper = { version = "=1.12.0", features = ["server", "http1"] }
hyper-util = { version = "=0.1.21", features = ["tokio"] }
itertools = "=0.15.0"
log = "=0.4.35"
opentelemetry = "=0.31.0"
opentelemetry-otlp = { version = "=0.31.1", features = ["grpc-tonic"] }
opentelemetry_sdk = { version = "=0.31.0", features = ["rt-tokio"] }
rdkafka = "=0.39.0"
serde = { version = "=1.0.229", features = ["derive"] }
serde_json = "=1.0.154"
serde-value = "=0.7.0"
simd-json = "=0.19.0"
stats_alloc = "=0.1.10"
sysinfo = "=0.29.11"
tokio = { version = "=1.54.1", features = ["full"] }
tokio-postgres = "=0.7.18"
tracing = "=0.1.44"
tracing-opentelemetry = "=0.32.1"
tracing-subscriber = "=0.3.23"

