[package]
name = "ferrisdb"
version = "0.1.0"
edition = "2021"
publish = false

[dependencies]
crc32fast = "1"
rand = "0.8"
parking_lot = "0.12"
serde = { version = "1", features = ["derive"] }
thiserror = "1"
