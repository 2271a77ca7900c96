[package]
name = "lz_fear"
version = "0.2.0"
edition = "2021"
publish = false

[dependencies]
twox-hash = "1"

[dev-dependencies]
lz4 = "*"
