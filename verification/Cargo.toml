[package]
name = "pubsub"
version = "0.1.0"
edition = "2021"
publish = false

[dependencies]
bytes = "*"
sonr = "*"

[dev-dependencies]
serde_json = "*"
