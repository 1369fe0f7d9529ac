[package]
name = "roll_dice"
version = "0.1.0"
edition = "2021"
publish = false

[dependencies]
console_error_panic_hook = "=0.1.7"
getrandom = "=0.2.17"
rayon = "=1.12.0"
rustyline = "=12.0.0"
wasm-bindgen = "=0.2.129"
