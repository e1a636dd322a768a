[package]
name = "stale"
version = "0.1.0"
edition = "2021"
publish = false

[dependencies]
glob = "0.3"
sha2 = "0.10"
hex = "0.4"
toml = "0.8"
serde_json = "1.0"
anyhow = "1.0"
clap = { version = "4.5", features = ["derive"] }
