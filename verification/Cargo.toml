[package]
name = "multilinear_sumcheck"
version = "0.1.0"
edition = "2021"
publish = false

[dependencies]
ark-ff = "0.5"
ark-bn254 = "0.5"
rayon = "1"

[dev-dependencies]
ark-std = "0.5"
