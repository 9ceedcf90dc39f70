[package]
name = "qrdv"
version = "0.1.0"
edition = "2021"
publish = false

[dependencies]
aes-gcm = "0.10"
argon2 = "0.5"
base64 = "0.22"
crc32fast = "1"
flate2 = "1"
qrcode = { version = "0.14", default-features = false }
rand = "0.8"
rqrr = { version = "*", default-features = false }
anyhow = "1"
clap = { version = "4", features = ["derive"] }
colored = "2"
indicatif = "0.17"
