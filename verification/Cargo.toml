[package]
name = "serverbrowser"
version = "0.1.0"
edition = "2021"
publish = false

[dependencies]
serde = { version = "1", features = ["derive"] }
toml = "0.8"
url = "2"
dpi = "0.1"
rustls = "0.23"
