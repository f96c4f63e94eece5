[package]
name = "certified_assets"
version = "0.1.0"
edition = "2021"
publish = false

[dependencies]
base64 = "0.13"
percent-encoding = "2"
sha2 = "0.10"
serde = { version = "1", features = ["derive"] }
candid = "0.10"
ic-cdk = "0.13"

[dev-dependencies]
serde_cbor = "0.11"
ic-certified-map = "0.2"
