[package]
name = "segstore"
version = "0.4.0"
edition = "2021"
publish = false

[dependencies]
crc32fast = "1"
durability = { version = "*", features = ["postcard"] }
serde = { version = "1", features = ["derive"] }
