[package]
name = "offences_poc"
version = "0.1.0"
edition = "2021"
publish = false

[dependencies]
parity-scale-codec = "*"
sp-crypto-hashing = "*"

[dev-dependencies]
schnorrkel = "*"
