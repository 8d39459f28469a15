[package]
name = "auth_store"
version = "0.1.0"
edition = "2021"
publish = false

[dependencies]
jsonwebtoken = { version = "=11.1.0", features = ["rust_crypto"] }
pbkdf2 = { version = "=0.12.2", features = ["simple"] }
serde_json = "=1.0.151"
tokio = { version = "=1.53.2", features = ["sync"] }
