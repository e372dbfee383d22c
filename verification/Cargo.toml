[package]
name = "poker_eval"
version = "0.1.0"
edition = "2021"
publish = false

[dependencies]
itertools = "*"
once_cell = "1"
rand = "0.8"
wasm-bindgen = "0.2"
