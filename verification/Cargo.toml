[package]
name = "shasper"
version = "0.1.0"
edition = "2021"
publish = false

[dependencies]
sha2 = "=0.11.1"
keccak-hasher = "=0.16.0"
hash-db = "=0.16.0"
serde = { version = "=1.0.229", features = ["derive"] }
impl-serde = "=0.5.0"
hex = "*"
