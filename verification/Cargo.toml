[package]
name = "cryptid"
version = "0.1.0"
edition = "2021"
publish = false

[dependencies]
base64 = "0.13"
ring = "0.17"
serde = { version = "1", features = ["derive"] }
