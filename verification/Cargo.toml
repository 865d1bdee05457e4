[package]
name = "woa_core"
version = "0.1.0"
edition = "2021"
publish = false

[dependencies]
hecs = "0.10"
wasm-bindgen = "0.2"
axum = "0.7"
tokio = { version = "1", features = ["macros", "rt-multi-thread", "net"] }
