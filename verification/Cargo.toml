[package]
name = "stake_bot"
version = "0.1.0"
edition = "2021"
publish = false

[dependencies]
log = "=0.4.35"
rayon = "=1.12.0"
regex = "=1.13.1"
serde = { version = "=1.0.229", features = ["derive"] }
serde_yaml = "=0.8.26"
solana-account-decoder = "=1.7.8"
solana-sdk = "=1.7.8"
solana-transaction-status = "=1.7.8"
