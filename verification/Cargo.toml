[package]
name = "token_ledger"
version = "0.1.0"
edition = "2021"
publish = false

[dependencies]
ink_env = { version = "3", features = ["std"] }
