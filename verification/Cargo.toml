[package]
name = "protohackers"
version = "0.1.0"
edition = "2021"
publish = false

[dependencies]
io-uring = "*"
serde = { version = "1", features = ["derive"] }
serde_json = "1"
