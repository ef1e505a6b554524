[package]
name = "range_decompose"
version = "0.1.0"
edition = "2021"
publish = false

[dependencies]
regex = "1"
serde = { version = "1", features = ["derive"] }
ff = "0.13"
halo2_proofs = "0.3"
