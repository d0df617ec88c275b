[package]
name = "docfind"
version = "0.1.0"
edition = "2021"
publish = false

[dependencies]
fsst-rs = "=0.6.0"
fst = { version = "=0.4.7", features = ["levenshtein"] }
rake = "=0.3.6"
wasmparser = "=0.261.0"
wasm-encoder = "=0.261.0"
serde = { version = "=1.0.229", features = ["derive"] }
serde_json = "=1.0.151"
wasm-bindgen = "=0.2.129"
serde-wasm-bindgen = "=0.6.5"
