[package]
name = "svdpatch"
version = "0.1.0"
edition = "2021"
publish = false

[dependencies]
anyhow = "1"
commands = "0.0.5"
globset = "0.4"
svd-parser = "0.14"
yaml-rust = "0.4"
