[package]
name = "sumcheck_uniskip"
version = "0.1.0"
edition = "2021"
publish = false

[dependencies]
p3-field = "*"
p3-goldilocks = "*"
tiny-keccak = { version = "*", features = ["keccak"] }
rand = "*"
