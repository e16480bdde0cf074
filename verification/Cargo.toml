[package]
name = "kernel_core"
version = "0.1.0"
edition = "2021"
publish = false

[dependencies]
bootloader_api = "=0.11.17"
spin = "=0.9.9"
x86_64 = { version = "=0.15.5", default-features = false, features = ["instructions"] }
