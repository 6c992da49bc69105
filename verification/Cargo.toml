[package]
name = "kcore"
version = "0.1.0"
edition = "2021"
publish = false

[dependencies]
bitvec = "1"
meval = "0.2"
