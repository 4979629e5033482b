[package]
name = "montre"
version = "0.1.0"
edition = "2021"
publish = false

[dependencies]
roaring = "*"
blake3 = "1"
uuid = { version = "1", features = ["v4"] }
time = { version = "0.3", features = ["formatting"] }
serde = { version = "1", features = ["derive"] }
serde_json = "1"
toml = "*"
bincode = "1"
clap = { version = "4", features = ["derive"] }
anyhow = "1"
walkdir = "2"
tracing = "0.1"
tracing-subscriber = "0.3"
