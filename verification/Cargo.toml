[package]
name = "icfp2023"
version = "0.1.0"
edition = "2021"
publish = false

[dependencies]
rand = "0.8"
serde = { version = "1", features = ["derive"] }
serde_json = "1"
clap = { version = "4", features = ["derive"] }
svg = "0.13"
anyhow = "1"
log = "0.4"
env_logger = "0.10"
fd-lock = "3"
