[package]
name = "chess_firmware"
version = "0.1.0"
edition = "2021"
publish = false

[dependencies]
rppal = { version = "=0.22.1", features = ["hal"] }
embedded-hal = "=1.0.0"
