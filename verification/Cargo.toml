[package]
name = "filmreel"
version = "0.1.0"
edition = "2021"
publish = false

[dependencies]
jql = "=2.9.5"
serde = { version = "=1.0.229", features = ["derive"] }
serde_json = { version = "=1.0.154", features = ["preserve_order"] }
