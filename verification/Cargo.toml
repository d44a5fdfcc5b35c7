[package]
name = "knives"
version = "0.1.0"
edition = "2021"
publish = false

[dependencies]
anyhow = "1"
jiff = "*"
serde = { version = "1", features = ["derive"] }
serde_json = "1"
tempfile = "3"
thiserror = "2"
toml = "*"
