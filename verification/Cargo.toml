[package]
name = "soros"
version = "0.1.0"
edition = "2021"
publish = false

[dependencies]
serde = { version = "1", features = ["derive"] }
serde_json = "1"
log = "0.4"
env_logger = "0.11"
mio = { version = "1", features = ["os-poll", "net"] }
rayon = "1"
thiserror = "1"
csv = "1"
