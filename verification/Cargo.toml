[package]
name = "exchange_engine"
version = "0.1.0"
edition = "2021"
publish = false

[dependencies]
rand = "0.8"
chrono = "0.4"
redis = "*"
serde = { version = "1", features = ["derive"] }
serde_json = "1"
