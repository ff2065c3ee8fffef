[package]
name = "hidden_volume"
version = "0.1.0"
edition = "2021"
publish = false

[dependencies]
blake3 = "1"
byteorder = "1"
zeroize = "1"
zstd = "0.13"
