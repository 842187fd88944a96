[package]
name = "bcf"
version = "0.1.0"
edition = "2021"
publish = false

[dependencies]
ed25519-dalek = "2"
k256 = "0.13"
sha2 = "0.10"
thiserror = "1"
