[package]
name = "my_os"
version = "0.1.0"
edition = "2021"
publish = false

[dependencies]
font8x8 = "0.3"
bootloader_api = "0.11"
x86_64 = { version = "0.15", default-features = false, features = ["instructions"] }
spin = "0.9"
lazy_static = "1"
