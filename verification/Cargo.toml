[package]
name = "phased_array"
version = "0.1.0"
edition = "2021"
publish = false

[dependencies]
faer = "*"
wasm-bindgen = "*"
wide = "*"
