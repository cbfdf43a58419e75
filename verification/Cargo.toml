[package]
name = "fourcode"
version = "0.1.0"
edition = "2021"
publish = false

[dependencies]
libchai = "*"
serde = { version = "=1.0.229", features = ["derive"] }
