[package]
name = "orlice"
version = "0.1.0"
edition = "2021"
publish = false

[dependencies]
csv = "=1.4.0"
encoding_rs = "=0.8.44"
encoding_rs_io = "=0.1.8"
image = { version = "=0.25.10", default-features = false, features = ["png", "bmp"] }
regex = "=1.13.1"
wasm-bindgen = "=0.2.130"
wasm-bindgen-futures = "=0.4.80"
gloo-net = { version = "=0.7.0", default-features = false, features = ["http"] }
console_error_panic_hook = "=0.1.7"
