[package]
name = "oblioplib"
version = "0.1.0"
edition = "2021"
publish = false

[dependencies]
flatbuffers = "*"
lazy_static = "1"
serde = { version = "1", features = ["derive"] }
serde_json = "1"
