[package]
name = "hashsig"
version = "0.1.0"
edition = "2021"
publish = false

[dependencies]
rand = "0.8"
sha2 = "0.10"
tiny-keccak = { version = "2.0", features = ["sha3"] }
serde = { version = "1.0", features = ["derive"] }
