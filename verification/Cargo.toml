[package]
name = "brutal_quic"
version = "0.1.0"
edition = "2021"
publish = false

[dependencies]
log = "0.4"
quinn = { version = "0.11", default-features = false }
quinn-proto = { version = "0.11", default-features = false }
serde = { version = "1", features = ["derive"] }

[dev-dependencies]
serde_yaml = "0.9"
