[package]
name = "range_lt"
version = "0.1.0"
edition = "2021"
publish = false

[dependencies]
halo2_proofs = "0.3"
pasta_curves = "0.5"
