[package]
name = "ethereum_abi"
version = "0.1.0"
edition = "2021"
publish = false

[dependencies]
anyhow = "1"
ethereum-types = { version = "*", default-features = false }
hex = "0.4"
serde = { version = "1", features = ["derive"] }
tiny-keccak = { version = "2", features = ["keccak"] }

[dev-dependencies]
serde_json = "1"
