[package]
name = "live_datadash"
version = "0.1.0"
edition = "2021"
publish = false

[dependencies]
charming = "*"
rand = "0.8"
serde = { version = "1", features = ["derive"] }
serialport = { version = "*", default-features = false }
sqlite = "*"
