[package]
name = "twenty48"
version = "0.1.0"
edition = "2021"
publish = false

[dependencies]
rand = "0.9"
serde = { version = "1.0", features = ["derive"] }
serde_json = "1.0"
dirs = "*"
