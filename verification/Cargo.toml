[package]
name = "merkle_clock"
version = "0.1.0"
edition = "2021"
publish = false

[dependencies]
chrono = "=0.4.45"
fasthash = "=0.4.0"

[dev-dependencies]
murmur3 = "=0.5.2"
