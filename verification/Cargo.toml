[package]
name = "bignum4096"
version = "0.1.0"
edition = "2021"
publish = false

[dependencies]
rand_core = "*"
