[package]
name = "loudnorm"
version = "0.1.0"
edition = "2021"
publish = false

[dependencies]
candle-core = "*"
candle-transformers = "*"
hf-hub = { version = "*", default-features = false, features = ["ureq"] }
serde_json = "*"
