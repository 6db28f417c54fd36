[package]
name = "ingester_core"
version = "0.1.0"
edition = "2021"
publish = false

[dependencies]
crc32c = "*"
backoff = "*"
