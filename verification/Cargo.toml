[package]
name = "sudoku_engine"
version = "0.1.0"
edition = "2021"
publish = false

[dependencies]
anyhow = "1"
bounded-integer = { version = "0.5", features = ["types"] }
rand = "0.8"
wasm-bindgen = "0.2"
