[package]
name = "lumen"
version = "0.1.0"
edition = "2021"
publish = false

[dependencies]
x86_64 = { version = "=0.15.5", default-features = false, features = ["instructions"] }
spin = "=0.9.9"
pic8259 = "=0.11.0"
pc-keyboard = "=0.7.0"
bootloader_api = "=0.11.17"
