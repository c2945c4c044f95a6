[package]
name = "bnbrs"
version = "0.1.0"
edition = "2021"
publish = false

[dependencies]
bitset-fixed = "*"
