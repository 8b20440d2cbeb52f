[package]
name = "ymlog"
version = "0.1.0"
edition = "2021"
publish = false

[dependencies]
chrono = { version = "0.4", features = ["serde"] }
serde = "1"
serde_yaml = "0.8"
