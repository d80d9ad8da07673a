[package]
name = "yurecheck"
version = "0.1.0"
edition = "2021"
publish = false

[dependencies]
vibrato = "*"
serde = { version = "*", features = ["derive"] }
serde_json = "*"
zstd = "*"
