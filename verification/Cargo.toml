[package]
name = "game"
version = "0.1.0"
edition = "2021"
publish = false

[dependencies]
rand = "0.8"
serde = { version = "1", features = ["derive"] }
wasm-bindgen = "0.2"
tsify = "0.4"
log = "0.4"
console_log = "1"
console_error_panic_hook = "0.1"
