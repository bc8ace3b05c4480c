[package]
name = "param_codec"
version = "0.1.0"
edition = "2021"
publish = false

[dependencies]
prc-rs = "*"
lazy_static = "1"
wasm-bindgen = "0.2"
yew = "0.17"
