[package]
name = "ghostly"
version = "0.1.0"
edition = "2021"
publish = false

[dependencies]
base64 = "*"
crypto_secretbox = "*"
rand = "*"
serde = { version = "*", features = ["derive"] }
serde_json = "*"
clap = { version = "*", features = ["derive"] }
