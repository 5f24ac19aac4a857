[package]
name = "fuzzy_psi"
version = "0.1.0"
edition = "2021"
publish = false

[dependencies]
ark-ff = "0.5"
ark-poly = "0.5"
ark-test-curves = { version = "0.5", features = ["bls12_381_curve"] }
blake2 = "0.10"
log = "0.4"
num-bigint = "0.4"
rand = "0.9"
rand_chacha = { version = "0.9", features = ["os_rng"] }
simple_logger = "*"
sp-core = { version = "*", default-features = false }
