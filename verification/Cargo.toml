[package]
name = "dimport"
version = "0.1.0"
edition = "2021"
publish = false

[dependencies]
regex = "1"
git2 = { version = "*", default-features = false }
serde = { version = "1", features = ["derive"] }
serde_json = "1"
notify-rust = "*"
log = "0.4"
env_logger = "*"
