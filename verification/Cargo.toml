[package]
name = "skv"
version = "0.1.0"
edition = "2021"
publish = false

[dependencies]
crc32c = "*"
anyhow = "*"
fs2 = "*"
