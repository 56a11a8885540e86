[package]
name = "fuzzy_match"
version = "0.1.0"
edition = "2021"
publish = false

[dependencies]
fuse-rust = "*"
wasm-bindgen = "*"
web-sys = { version = "*", features = ["console"] }
