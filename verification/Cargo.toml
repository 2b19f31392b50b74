[package]
name = "rush"
version = "0.1.0"
edition = "2021"
publish = false

[dependencies]
rand = "0.8"
libc = "0.2"
serde = { version = "1", features = ["derive"] }
serde_json = "1"
signal-hook = "0.3"
