[package]
name = "find_pazl"
version = "0.1.0"
edition = "2021"
publish = false

[dependencies]
base58 = "=0.2.0"
sha2 = "=0.10.9"
rand = "=0.8.8"
num_cpus = "=1.17.0"
rustils = "=0.1.23"
sv = "=0.2.2"
secp256k1 = "0.29"
libloading = "=0.8.9"
libc = "=0.2.191"
tokio = { version = "1", features = ["rt-multi-thread", "macros"] }
