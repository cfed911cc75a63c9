[package]
name = "secp256k1_ecdsa"
version = "0.1.0"
edition = "2021"
publish = false

[dependencies]
k256 = "=0.14.0"
ecdsa = "=0.17.0"
serde = "=1.0.229"
