[package]
name = "lightning_tracker"
version = "0.1.0"
edition = "2021"
publish = false

[dependencies]
base64 = "0.22"
native-tls = "0.2"
rand = "0.8"
serde = { version = "1", features = ["derive"] }
serde_json = "1"
url = "2"
