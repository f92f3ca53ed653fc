[package]
name = "witness"
version = "0.1.0"
edition = "2021"
publish = false

[dependencies]
secp256k1 = "0.24"
serde = "1"
bitcoin_hashes = "0.11"
