[package]
name = "edwards_chip"
version = "0.1.0"
edition = "2021"
publish = false

[dependencies]
halo2curves = "*"
halo2_proofs = "*"

[dev-dependencies]
ark-std = "*"
