[package]
name = "feistel_fpe"
version = "0.1.0"
edition = "2021"

[dependencies]
ahash = "0.4"
