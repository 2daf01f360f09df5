[package]
name = "crypto_once"
version = "0.1.0"
edition = "2021"
publish = false

[dependencies]
aes-gcm = "0.10"
once_cell = "1"
pbkdf2 = "0.12"
rand = "0.8"
sha2 = "0.10"
