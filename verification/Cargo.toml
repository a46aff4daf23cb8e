[package]
name = "secure_channel"
version = "0.1.0"
edition = "2021"
publish = false

[dependencies]
chacha20poly1305 = "0.10"
rand = "0.8"
base64 = "0.22"
anyhow = "1"
dirs = "5"
