[package]
name = "hanzi-search"
version = "0.1.0"
edition = "2021"
publish = false

[dependencies]
anyhow = "1"
env_logger = "*"
log = "0.4"
serde = { version = "1", features = ["derive"] }
serde-wasm-bindgen = "*"
structopt = "0.3"
wasm-bindgen = "0.2"
