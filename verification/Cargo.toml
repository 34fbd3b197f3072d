[package]
name = "workbench"
version = "0.1.0"
edition = "2021"
publish = false

[dependencies]
axum = "*"
maud = "*"
serde = { version = "1", features = ["derive"] }
serde_json = "1"
tempfile = "3"

[dev-dependencies]
base64 = "*"
