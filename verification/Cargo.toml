[package]
name = "kernel"
version = "0.1.0"
edition = "2021"
publish = false

[dependencies]
bootloader_api = "0.11"
png = "0.17"
profont = "0.7"
x86_64 = { version = "0.15", default-features = false, features = ["instructions"] }
