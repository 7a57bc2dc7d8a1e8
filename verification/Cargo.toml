[package]
name = "decaf"
version = "0.1.0"
edition = "2021"

[dependencies]
flate2 = "1"
xxhash-rust = { version = "0.8", features = ["xxh3"] }
zstd = "0.13"
