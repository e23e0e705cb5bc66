[package]
name = "polynomial"
version = "0.1.0"
edition = "2021"
publish = false

[dependencies]
ark-bn254 = "0.5"
ark-ff = "0.5"
ark-std = "0.5"
rand = "0.8"
sha2 = "0.10"
sha3 = "0.10"
