[package]
name = "ferr_os"
version = "0.1.0"
edition = "2021"
publish = false

[dependencies]
bit_field = "0.10"
crossbeam-queue = "0.2"
x86_64 = { version = "0.15", default-features = false, features = ["instructions"] }
spin = "0.9"
conquer-once = { version = "0.3", default-features = false }
