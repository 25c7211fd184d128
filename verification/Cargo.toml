[package]
name = "logban"
version = "0.1.0"
edition = "2021"
publish = false

[dependencies]
regex = "*"
serde = "*"
serde_derive = "*"
toml = "*"
anyhow = "*"
log = "*"
env_logger = "*"
inotify = "*"
