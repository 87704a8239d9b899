[package]
name = "roomcore"
version = "0.1.0"
edition = "2021"
publish = false

[dependencies]
ruma = { version = "=0.17.0", features = ["signatures", "rand"] }
serde_json = "=1.0.151"
ipaddress = "=0.2.11"
