[package]
name = "concierge"
version = "0.2.0"
edition = "2021"
publish = false

[dependencies]
semver = "1"
uuid = { version = "1", features = ["v4"] }
serde = { version = "1", features = ["derive"] }
serde_json = "1"
