[package]
name = "pso_rs"
version = "0.1.0"
edition = "2021"
publish = false

[dependencies]
rand = "0.8"
rand_chacha = "0.3"
rayon = "1"
log = "0.4"
indicatif = "0.17"
