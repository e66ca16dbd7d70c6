[package]
name = "backend"
version = "0.1.0"
edition = "2021"
publish = false

[dependencies]
anyhow = "*"
base64 = "*"
chrono = "*"
crossbeam = "*"
rand = "0.8"
serde = { version = "*", features = ["derive"] }
serde_json = "*"
toml = "*"
