[package]
name = "pool"
version = "0.1.0"
edition = "2021"
publish = false

[dependencies]
hmac = "0.12"
sha2 = "0.10"
jwt = "0.16"
serde = { version = "1", features = ["derive"] }
serde_json = "1"
log = "0.4"
env_logger = "*"
tokio = { version = "1", features = ["full"] }
axum = "0.7"
reqwest = { version = "*", default-features = false }
pnet = "*"
