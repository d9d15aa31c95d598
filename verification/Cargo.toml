[package]
name = "zero_proof_vault_backend"
version = "0.1.0"
edition = "2021"
publish = false

[dependencies]
candid = "=0.10.39"
ic-cdk = "=0.20.3"
ic-cdk-macros = "=0.20.3"
ic-stable-structures = "=0.7.2"
serde = { version = "1", features = ["derive"] }
