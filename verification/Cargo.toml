[package]
name = "cendb"
version = "0.1.0"
edition = "2021"
publish = false

[dependencies]
argon2 = { version = "=0.6.0", features = ["parallel"] }
blake3 = "=1.8.7"
chacha20poly1305 = "=0.11.0"
rand = "=0.10.3"
serde = { version = "=1.0.229", features = ["derive"] }
serde_json = "=1.0.154"
