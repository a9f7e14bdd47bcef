[package]
name = "plonkish_backend"
version = "0.1.0"
edition = "2021"
publish = false

[dependencies]
bincode = "1.3"
halo2curves = { version = "0.6", default-features = false, features = ["derive_serde"] }
rand = "0.8"
serde = { version = "1", features = ["derive"] }
sha3 = "0.10"
