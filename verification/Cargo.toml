[package]
name = "threshold_ecies"
version = "0.1.0"
edition = "2021"
publish = false

[dependencies]
aes-gcm = "0.10"
ff = "0.13"
group = "0.13"
jubjub = "0.10"
rand = "0.9"
sha2 = "0.10"
