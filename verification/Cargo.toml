[package]
name = "sa_psi"
version = "0.1.0"
edition = "2021"
publish = false

[dependencies]
aes = "0.8"
blake3 = "1"
blake2 = "0.10"
rand = "0.9"
anyhow = "1"
p256 = "0.13"
clap = { version = "4", features = ["derive"] }
