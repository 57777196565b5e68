[package]
name = "radix_engine"
version = "0.1.0"
edition = "2021"
publish = false

[dependencies]
const-sha1 = "*"
serde = { version = "*", features = ["derive"] }
