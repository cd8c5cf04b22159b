[package]
name = "ledgerstone"
version = "0.1.0"
edition = "2021"
publish = false

[dependencies]
serde = { version = "=1.0.229", features = ["derive"] }
serde_json = { version = "=1.0.154", features = ["arbitrary_precision"] }
clap = { version = "=4.6.7", features = ["derive"] }
