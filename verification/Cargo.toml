[package]
name = "minkowski"
version = "0.1.0"
edition = "2021"
publish = false

[dependencies]
anyhow = "*"
console_error_panic_hook = "*"
serde = { version = "*", features = ["derive"] }
serde-wasm-bindgen = "*"
serde_json = "*"
wasm-bindgen = "*"
