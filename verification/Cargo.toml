[package]
name = "ore_deploy"
version = "0.1.0"
edition = "2021"
publish = false

[dependencies]
solana-sdk = "2"
ore-api = "*"
steel = "*"
anyhow = "1"
