[package]
name = "uptime_monitor"
version = "0.1.0"
edition = "2021"
publish = false

[dependencies]
validator = "*"
reqwest = { version = "*", default-features = false, features = ["blocking"] }
