[package]
name = "hostlist"
version = "0.1.0"
edition = "2021"
publish = false

[dependencies]
url = "2"
rand = "0.8"
tor-hscrypto = "*"
blake3 = "1"
