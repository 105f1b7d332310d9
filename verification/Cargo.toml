[package]
name = "durak_core"
version = "0.1.0"
edition = "2021"
publish = false

[dependencies]
rand = "0.8"
serde = { version = "1", features = ["derive"] }
thiserror = "1"
wasm-bindgen = "0.2"
js-sys = "0.3"
serde-wasm-bindgen = "*"
