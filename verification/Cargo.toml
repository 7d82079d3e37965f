[package]
name = "hex_sandbox"
version = "0.1.0"
edition = "2021"
publish = false

[dependencies]
anyhow = "=1.0.104"
futures-lite = "=2.6.1"
hexx = { version = "=0.25.0", features = ["serde"] }
ron = "=0.12.2"
serde = { version = "=1.0.229", features = ["derive"] }
