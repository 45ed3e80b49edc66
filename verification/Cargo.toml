[package]
name = "recall"
version = "0.1.0"
edition = "2021"
publish = false

[dependencies]
anyhow = "1"
ratatui = "0.29"
serde = { version = "1", features = ["derive"] }
toml = "0.8"
