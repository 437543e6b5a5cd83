[package]
name = "zeekit"
version = "0.1.0"
edition = "2021"
publish = false

[dependencies]
bls12_381 = "=0.9.0"
bellman = "=0.15.0"

[dev-dependencies]
jubjub = "=0.11.1"
group = "*"
