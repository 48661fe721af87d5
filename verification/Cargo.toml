[package]
name = "bitcoincash_addr"
version = "0.1.0"
edition = "2021"
publish = false

[dependencies]
bitcoin_hashes = "*"
rust-base58 = "*"

[dev-dependencies]
hex = "*"
