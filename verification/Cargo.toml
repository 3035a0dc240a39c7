[package]
name = "poseidon_merkle"
version = "0.1.0"
edition = "2021"
publish = false

[dependencies]
curve25519-dalek = { version = "=4.1.3", default-features = false }
rocksdb = { version = "=0.25.0", default-features = false }
bulletproofs = { version = "=4.0.0", features = ["yoloproofs"] }
curve25519-dalek-ng = "=4.1.1"
merlin = "=3.0.0"
rand = "0.8"
