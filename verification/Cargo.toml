[package]
name = "tot"
version = "0.1.0"
edition = "2021"
publish = false

[dependencies]
anyhow = "*"
clap = { version = "*", features = ["derive"] }
env_logger = "*"
log = "*"
ryu = "*"
serde = "*"
serde_json = "*"
serde_yaml = "*"
thiserror = "*"
toml = "*"
