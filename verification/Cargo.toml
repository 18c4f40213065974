[package]
name = "curated_pki"
version = "0.1.0"
edition = "2021"

[dependencies]
sp-arithmetic = "*"
