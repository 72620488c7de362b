[package]
name = "pageserver"
version = "0.1.0"
edition = "2021"
publish = false

[dependencies]
anyhow = "1"
bytes = "1"
crc32c = "0.6"
log = "0.4"
