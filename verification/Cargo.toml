[package]
name = "shards"
version = "0.1.0"
edition = "2021"
publish = false

[dependencies]
base64 = "0.10"
failure = "0.1"
serde = "1"
serde_derive = "1"
