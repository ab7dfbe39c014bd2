[package]
name = "occlum"
version = "0.1.0"
edition = "2021"
publish = false

[dependencies]
regex = "=1.13.1"
bitvec = { version = "=1.1.1", default-features = false, features = ["alloc"] }
resolv-conf = { version = "0.7", default-features = false }
