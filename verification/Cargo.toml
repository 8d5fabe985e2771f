[package]
name = "cairn-runtime"
version = "0.1.0"
edition = "2021"
publish = false

[dependencies]
blake3 = "=1.8.7"
wasmparser = "=0.263.0"
wasm-encoder = { version = "=0.263.0", features = ["wasmparser"] }
wat = "=1.263.0"
