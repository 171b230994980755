[package]
name = "ws_frame"
version = "0.1.0"
edition = "2021"
publish = false

[dependencies]
bytes = "*"
