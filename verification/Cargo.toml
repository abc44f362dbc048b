[package]
name = "crypto_primality"
version = "0.1.0"
edition = "2021"
publish = false

[dependencies]
crypto-bigint = { version = "0.6", features = ["rand"] }
