[package]
name = "floe_web"
version = "0.1.0"
edition = "2021"
publish = false

[dependencies]
getrandom = "0.3"
subtle = "2"
crc32fast = "1"
serde = { version = "1", features = ["derive"] }
serde_json = "1"
