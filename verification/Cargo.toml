[package]
name = "wrpc"
version = "0.1.0"
edition = "2021"
publish = false

[dependencies]
anyhow = "1"
async-nats = { version = "0.33", default-features = false }
async-trait = "0.1"
bytes = { version = "1", default-features = false }
clap = { version = "4", features = ["derive"] }
futures = { version = "0.3", default-features = false, features = ["async-await", "executor", "std"] }
reqwest = { version = "0.11", default-features = false }
tokio = { version = "1", default-features = false, features = ["fs", "macros", "rt-multi-thread"] }
tracing = { version = "0.1", default-features = false, features = ["attributes"] }
tracing-subscriber = { version = "0.3", default-features = false, features = ["ansi", "env-filter", "fmt"] }
url = "=2.5.8"
wasmcloud-component-adapters = "=0.9.0"
wasmparser = "=0.201.0"
wasmtime = { version = "=19.0.2", default-features = false, features = ["async", "component-model", "cranelift"] }
wasmtime-wasi = "=19.0.2"
wasmtime-wasi-http = "=19.0.2"
wit-component = "=0.201.0"
wit-parser = "=0.201.0"
wrpc-runtime-wasmtime = "=0.12.0"
wrpc-transport = "=0.15.1"
wrpc-transport-nats = "=0.12.0"
wrpc-types = "=0.5.0"
