[package]
name = "substrate"
version = "0.2.0"
edition = "2021"
publish = false

[dependencies]
bincode = "1.3"
blake3 = "1"
bytes = "1"
chacha20poly1305 = "0.10"
crc32c = "0.6"
ed25519-dalek = "2"
futures = "0.3"
object_store = "0.11"
rand_core = { version = "0.6", features = ["getrandom"] }
serde = { version = "1", features = ["derive"] }
serde_json = "1"
thiserror = "1"
tokio = { version = "1", features = ["rt-multi-thread", "sync", "time"] }
zeroize = "1"
