[package]
name = "panic_calculators"
version = "0.1.0"
edition = "2021"
publish = false

[dependencies]
malachite = "*"
libm = "*"
wasm-bindgen = "*"
