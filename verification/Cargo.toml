[package]
name = "rustdds"
version = "0.1.0"
edition = "2021"
publish = false

[dependencies]
bit-vec = "*"
bytes = "*"
enumflags2 = "*"
log = "*"
