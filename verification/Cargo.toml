[package]
name = "scylla"
version = "0.1.0"
edition = "2021"
publish = false

[dependencies]
serde = { version = "=1.0.229", features = ["derive"] }
serde_json = "=1.0.154"
flate2 = "=1.1.10"
base64 = "0.22"
tiny_http = "0.12"
