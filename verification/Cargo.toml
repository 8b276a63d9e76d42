[package]
name = "mif"
version = "0.1.0"
edition = "2021"
publish = false

[dependencies]
paste = "1"
wasm-bindgen = "0.2"
