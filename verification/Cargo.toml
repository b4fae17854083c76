[package]
name = "dobutsu_shogi"
version = "0.1.0"
edition = "2021"
publish = false

[dependencies]
wasm-bindgen = "0.2"

[dev-dependencies]
rand = "0.8"
rand_xorshift = "0.3"
