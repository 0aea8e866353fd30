[package]
name = "ii_delegation"
version = "0.1.0"
edition = "2021"
publish = false

[dependencies]
candid = "0.10"
ic-canister-sig-creation = "*"
ic-cdk = "*"
ic-certification = "*"
serde = { version = "1", features = ["derive"] }
serde_bytes = "0.11"
serde_cbor = "0.11"
sha2 = "0.10"
