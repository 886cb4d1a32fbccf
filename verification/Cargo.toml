[package]
name = "botok_rs"
version = "0.1.0"
edition = "2021"
publish = false

[dependencies]
unicode-normalization = "*"
serde = { version = "*", features = ["derive"] }
serde_json = "*"
