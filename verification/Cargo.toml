[package]
name = "ledboard"
version = "0.1.0"
edition = "2021"
publish = false

[dependencies]
bit = "*"
chrono = "0.4"
chrono-tz = "*"
substring = "*"
embedded-graphics = "0.8"
tinybmp = "*"
embedded-graphics-simulator = { version = "*", default-features = false }
serde = { version = "1", features = ["derive"] }
serde_json = "1"
reqwest = { version = "*", default-features = false, features = ["blocking", "rustls-tls"] }
log = "0.4"
env_logger = "*"
clap = { version = "4", features = ["derive"] }
