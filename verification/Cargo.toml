[package]
name = "pagefind_web"
version = "1.0.0"
edition = "2021"
publish = false

[dependencies]
bit-set = "*"
rust-stemmers = "*"
wasm-bindgen = "*"
wee_alloc = "*"
