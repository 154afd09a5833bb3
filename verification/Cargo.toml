[package]
name = "droplet"
version = "0.1.0"
edition = "2021"
publish = false

[dependencies]
sha2 = "*"
uuid = { version = "*", features = ["v4"] }
miniz_oxide = "*"
crc32fast = "*"
serde = { version = "*", features = ["derive"] }
serde_json = "*"
