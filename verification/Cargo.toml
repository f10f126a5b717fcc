[package]
name = "sc_opus"
version = "0.1.0"
edition = "2021"
publish = false

[dependencies]
opus-decoder = "*"
