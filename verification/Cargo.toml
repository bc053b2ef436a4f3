[package]
name = "chiffre_aes_core"
version = "1.0.0"
edition = "2021"
publish = false

[dependencies]
aes-gcm = "*"
argon2 = "*"
flate2 = "*"
rand = "*"
sha2 = "*"
tempfile = "*"
thiserror = "*"
zeroize = "*"
zxcvbn = "*"
