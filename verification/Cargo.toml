[package]
name = "veritas"
version = "0.1.0"
edition = "2021"
publish = false

[dependencies]
im = "15.1"
crossbeam-channel = "0.5"

[dev-dependencies]
crossbeam-queue = "0.3"
