[package]
name = "starknet_state"
version = "0.1.0"
edition = "2021"
publish = false

[dependencies]
anyhow = "1"
rusqlite = { version = "*", features = ["bundled"] }
starknet-crypto = "*"
thiserror = "1"
web3 = { version = "*", default-features = false }
