[package]
name = "ecdlp_5_bit"
version = "0.1.0"
edition = "2021"
publish = false

[dependencies]
sha3 = "0.10"
zstd = "0.13"
