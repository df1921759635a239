[package]
name = "wheels_router_nano"
version = "0.1.0"
edition = "2021"
publish = false

[dependencies]
anyhow = "1"
capnp = "0.20"
clap = { version = "4", features = ["derive"] }
csv = "1"
indicatif = "0.17"
osmpbf = "0.3"
quick-xml = "0.37"
serde = { version = "1", features = ["derive"] }
serde_json = "1"
serde-wasm-bindgen = "0.6"
wasm-bindgen = "0.2"
zip = { version = "2", default-features = false, features = ["deflate"] }
