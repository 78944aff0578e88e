[package]
name = "pvss"
version = "0.1.0"
edition = "2021"
publish = false

[dependencies]
blake3 = "1"
curve25519-dalek = "4"
rand = "0.9"
serde = { version = "1", features = ["derive"] }
serde_json = "1"
zeroize = "1"

[dev-dependencies]
rand_chacha = "0.9"
