[package]
name = "rosemary"
version = "0.1.0"
edition = "2021"
publish = false

[dependencies]
anyhow = "*"
chrono = "*"
dirs2 = "*"
env_logger = "*"
indicatif = "*"
log = "*"
rayon = "*"
serde = { version = "*", features = ["derive"] }
serde_json = "*"
thiserror = "*"
