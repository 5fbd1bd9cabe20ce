[package]
name = "state_delta"
version = "0.1.0"
edition = "2021"
publish = false

[dependencies]
rayon = "*"
sha3 = "*"
