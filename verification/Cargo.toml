[package]
name = "rewindos"
version = "0.1.0"
edition = "2021"
publish = false

[dependencies]
chrono = "*"
image = "*"
image_hasher = "*"
serde = { version = "*", features = ["derive"] }
serde_json = "*"
toml = "*"
