[package]
name = "wfc_engine"
version = "0.1.0"
edition = "2021"
publish = false

[dependencies]
image = { version = "*", default-features = false, features = ["png"] }
wasm-bindgen = "*"
web-sys = { version = "*", features = ["CanvasRenderingContext2d"] }
log = "*"
wasm-logger = "*"
console_error_panic_hook = "*"
