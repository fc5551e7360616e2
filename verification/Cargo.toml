[package]
name = "zicsv"
version = "0.1.0"
edition = "2021"
publish = false

[dependencies]
encoding = "*"
url = "*"
serde = { version = "*", features = ["derive"] }
serde_json = "*"
