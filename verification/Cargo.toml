[package]
name = "staking_pool"
version = "0.1.0"
edition = "2021"
publish = false

[dependencies]
candid = "0.10"
ic-cdk = "0.13"
ic-cdk-macros = "0.13"
ic-ledger-types = "0.10"
serde = { version = "1", features = ["derive"] }
