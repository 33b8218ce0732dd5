[package]
name = "pentacube"
version = "0.1.0"
edition = "2021"
publish = false

[dependencies]
wasm-bindgen = { version = "0.2", features = ["serde-serialize"] }
serde = "1"
serde_derive = "1"
console_error_panic_hook = "0.1"
