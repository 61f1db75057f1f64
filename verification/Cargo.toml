[package]
name = "pika"
version = "0.1.0"
edition = "2021"
publish = false

[dependencies]
aes = "0.8"
rand = "0.8"
serde = { version = "1", features = ["derive"] }
bincode = "1.3"
tokio = { version = "1", features = ["full"] }
