[package]
name = "batis_xml"
version = "0.1.1"
edition = "2021"
publish = false

[dependencies]
encoding_rs = "=0.8.44"
quick-xml = "=0.41.0"
serde = { version = "=1.0.229", features = ["derive"] }
serde_json = "=1.0.154"
wasm-bindgen = "=0.2.130"
js-sys = "=0.3.107"
schemars = "0.8"
