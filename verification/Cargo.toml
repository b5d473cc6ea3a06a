[package]
name = "semantic_search"
version = "0.1.0"
edition = "2021"
publish = false

[dependencies]
regex = "*"
serde = { version = "*", features = ["derive"] }
serde_json = "*"
wasm-bindgen = "*"
js-sys = "*"
wasm-bindgen-futures = "*"
serde-wasm-bindgen = "*"
reqwest = { version = "*", default-features = false, features = ["json"] }
ndarray = "*"
tiktoken-rs = "*"
log = "*"
console_log = "*"
console_error_panic_hook = "*"
anyhow = "*"
