[package]
name = "rust_caskdb"
version = "0.1.0"
edition = "2021"
publish = false

[dependencies]
bincode = { version = "2", features = ["serde"] }
dashmap = "6"
serde = "1"

[dev-dependencies]
rand = "*"
uuid = { version = "1", features = ["v4"] }
