[package]
name = "json_map"
version = "0.1.0"
edition = "2021"
publish = false

[dependencies]
serde_json = { version = "*", features = ["preserve_order"] }
serde-wasm-bindgen = "*"
wasm-bindgen = "*"
