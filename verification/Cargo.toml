[package]
name = "term_stream"
version = "0.1.0"
edition = "2021"
publish = false

[dependencies]
futures-core = "*"
wasm-bindgen = "*"
xterm-js-rs = "*"
