[package]
name = "scrabble"
version = "0.1.0"
edition = "2021"
publish = false

[dependencies]
rand = "*"
regex = "*"
serde = { version = "*", features = ["derive"] }
serde_json = "*"
stopwatch = "*"
wasm-bindgen = "*"
