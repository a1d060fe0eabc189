[package]
name = "gif_controls_decoder"
version = "0.1.0"
edition = "2021"
publish = false

[dependencies]
byteorder = "1"
thiserror = "1"
wasm-bindgen = "0.2"
