[package]
name = "dirsearch"
version = "0.1.0"
edition = "2021"
publish = false

[dependencies]
lmdb = "0.8"
rust-stemmers = "*"
lopdf = "*"

[dev-dependencies]
tempfile = "*"
