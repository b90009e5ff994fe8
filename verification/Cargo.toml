[package]
name = "culinator"
version = "0.1.0"
edition = "2021"
publish = false

[dependencies]
base64 = "0.22"
chacha20poly1305 = "0.10"
sha2 = "0.10"
serde = { version = "1", features = ["derive"] }
serde_json = "1"
