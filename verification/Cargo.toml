[package]
name = "extremal"
version = "0.1.0"
edition = "2021"
publish = false

[dependencies]
blake3 = "1"
hex = "0.4"
rand = { version = "0.8", features = ["small_rng"] }
serde = { version = "1", features = ["derive"] }
serde_json = "1"
ed25519-dalek = { version = "2", features = ["rand_core"] }
sha2 = "0.10"
thiserror = "1"
nauty-Traces-sys = "*"
