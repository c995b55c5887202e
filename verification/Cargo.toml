[package]
name = "flowstation"
version = "0.1.0"
edition = "2021"
publish = false

[dependencies]
chrono = "0.4"
crossbeam-channel = "0.5"
md5 = "0.7"
serde = { version = "1", features = ["derive"] }
toml = "0.8"
tracing = "0.1"
