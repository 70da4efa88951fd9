[package]
name = "merkle_host"
version = "0.1.0"
edition = "2021"
publish = false

[dependencies]
halo2_proofs = { version = "0.2", default-features = false }
num-bigint = "0.4"
