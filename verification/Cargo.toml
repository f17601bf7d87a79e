[package]
name = "casync_rs"
version = "0.1.0"
edition = "2021"
publish = false

[dependencies]
hash-roll = "=0.2.0"
rust-crypto = "=0.2.36"
zstd = "=0.14.3"
url = "=2.5.8"
clap = "=2.34.0"
reqwest = { version = "=0.12.28", default-features = false, features = ["blocking"] }
