[package]
name = "stepchart"
version = "0.1.0"
edition = "2021"
publish = false

[dependencies]
chrono = "0.4"
filetime = "0.2"
itertools = "0.10"
serde = { version = "1", features = ["derive"] }
serde_json = "1"
