[package]
name = "rufi"
version = "0.1.0"
edition = "2021"
publish = false

[dependencies]
fuzzy-matcher = "0.3"
serde = { version = "1", features = ["derive"] }
serde_json = "1"
dirs = "*"
clap = { version = "4", features = ["derive"] }
