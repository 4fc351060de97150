[package]
name = "json_data"
version = "0.1.0"
edition = "2021"
publish = false

[dependencies]
wtf8 = "=0.1.0"
serde_json = { version = "=1.0.151", features = ["float_roundtrip"] }
