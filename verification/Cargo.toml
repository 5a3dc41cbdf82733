[package]
name = "ocrop"
version = "0.1.0"
edition = "2021"
publish = false

[dependencies]
serde = { version = "1", features = ["derive"] }
serde_json = "1"
bincode = "1.3"
config = { version = "0.15", default-features = false, features = ["toml"] }
crossterm = "0.29"
ratatui = "0.30"
