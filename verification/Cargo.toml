[package]
name = "supersrg"
version = "0.1.0"
edition = "2021"
publish = false

[dependencies]
lz4 = "*"
serde = { version = "*", features = ["derive"] }
serde_bytes = "*"
rmp-serde = "*"
csv = "*"
walkdir = "*"
