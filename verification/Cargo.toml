[package]
name = "gera"
version = "0.1.0"
edition = "2021"
publish = false

[dependencies]
chrono = "=0.4.45"
comrak = { version = "=0.59.0", default-features = false }
regex = "=1.13.1"
regex-syntax = "=0.8.11"
once_cell = "=1.21.4"
serde = { version = "=1.0.229", features = ["derive"] }
serde_json = "=1.0.154"
serde_yaml = "=0.9.34"
rusqlite = { version = "=0.41.1", features = ["bundled"] }
notify = "=8.2.1"
dirs = "=7.0.0"
log = "=0.4.35"
env_logger = "=0.11.11"
reqwest = { version = "*", default-features = false, features = ["json"] }
