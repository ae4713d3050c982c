[package]
name = "ethbridge"
version = "0.1.0"
edition = "2021"
publish = false

[dependencies]
ethash = "=0.4.0"
ethereum-types = "=0.8.0"
sha2 = "=0.11.0"
borsh = { version = "=1.8.1", features = ["derive"] }
rlp = "=0.6.1"
sha3 = "=0.8.2"
