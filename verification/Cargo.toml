[package]
name = "ec_elgamal"
version = "0.1.0"
edition = "2021"
publish = false

[dependencies]
base64 = "0.22"
primitive-types = "0.13"
rand = "0.8"

[dev-dependencies]
rand_chacha = "0.3"
