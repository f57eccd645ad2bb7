[package]
name = "asmt"
version = "0.2.0"
edition = "2021"
publish = false

[dependencies]
bincode = "1"
serde = { version = "1", features = ["derive"] }
crc32c = "0.6"
regex = "1"
once_cell = "1"
