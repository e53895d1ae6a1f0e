[package]
name = "merkledb"
version = "0.1.0"
edition = "2021"
publish = false

[dependencies]
byteorder = "1"
rust-crypto = "0.2"
sha2 = "0.10"
uuid = { version = "1", features = ["v4"] }
num = "0.4"
serde = { version = "1", features = ["derive"] }
serde_json = "1"

[dev-dependencies]
rand = "0.8"
