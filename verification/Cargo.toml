[package]
name = "trigger_engine"
version = "0.1.0"
edition = "2021"
publish = false

[dependencies]
poise = "0.5"
tokio = { version = "1", features = ["full"] }
serde = { version = "1", features = ["derive"] }
serde_json = "1"
env_logger = "0.10"
rand = "0.8"
