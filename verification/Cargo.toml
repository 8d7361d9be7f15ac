[package]
name = "tinysandbox"
version = "0.1.0"
edition = "2021"
publish = false

[dependencies]
base64 = "=0.22.1"
jaq-core = "=3.1.2"
jaq-json = "=2.0.3"
jaq-std = "=3.0.4"
regex = "=1.13.1"
serde = { version = "=1.0.229", features = ["derive"] }
serde_json = "=1.0.154"
tokio = { version = "=1.54.1", features = ["rt", "rt-multi-thread", "io-util", "sync", "time", "macros"] }
wasmtime = { version = "=44.0.3", default-features = false, features = ["cranelift", "runtime", "std"] }
