[package]
name = "reduct_kernels"
version = "0.1.0"
edition = "2021"
publish = false

[dependencies]
flate2 = "1.0"
bumpalo = "3"
wasm-bindgen = "0.2"
js-sys = "0.3"
web-sys = { version = "0.3", features = ["console"] }
wide = "0.7"
regex = "1"
unicode-normalization = "0.1"
unicode-segmentation = "1"
icu = "1.5"
console_error_panic_hook = "0.1"
