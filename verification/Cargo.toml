[package]
name = "reconcile"
version = "0.1.0"
edition = "2021"
publish = false

[dependencies]
ropey = "1"
base64 = "0.22"
sanitize-filename = "0.6"
regex = "1"
rand = "0.8"
similar = "2"
serde = { version = "1", features = ["derive"] }
serde_yaml = "0.9"
serde_json = "1"
