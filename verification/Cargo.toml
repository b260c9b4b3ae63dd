[package]
name = "holdem"
version = "0.1.0"
edition = "2021"
publish = false

[dependencies]
sha2 = "=0.11.0"
crc32fast = "=1.5.2"
candid = "=0.10.37"
ic-cdk = "=0.20.3"
icrc-ledger-types = "=0.2.0"
serde = "*"
