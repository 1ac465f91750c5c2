[package]
name = "boulderboard"
version = "0.1.0"
edition = "2021"
publish = false

[dependencies]
serde = { version = "1", features = ["derive"] }
serde_json = "1"
reqwest = { version = "0.12", default-features = false }
tokio = { version = "1", features = ["rt", "time", "macros"] }
chrono = { version = "0.4", features = ["serde"] }
