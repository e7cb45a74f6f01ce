[package]
name = "forge"
version = "0.1.0"
edition = "2021"
publish = false

[dependencies]
atomic-wait = "1.1"
mio = { version = "1", features = ["os-poll"] }
