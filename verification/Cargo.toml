[package]
name = "timelapse"
version = "0.1.0"
edition = "2021"
publish = false

[dependencies]
anyhow = "1"
console_error_panic_hook = "0.1"
flate2 = "1"
gzp = { version = "*", default-features = false, features = ["deflate_rust"] }
image = "0.24"
log = "0.4"
parking_lot = "0.12"
rayon = "1"
seed = "0.9"
wasm-bindgen = "0.2"
wasm-logger = "0.2"
