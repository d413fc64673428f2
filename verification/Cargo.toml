[package]
name = "whir_helper"
version = "0.1.0"
edition = "2021"
publish = false

[dependencies]
hex = "=0.4.3"
serde = "=1.0.229"
ark-crypto-primitives = { version = "=0.5.0", features = ["merkle_tree"] }
