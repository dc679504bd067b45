[package]
name = "path-oram"
version = "0.1.0"
edition = "2021"

[dependencies]
rand = "0.8"
chacha20poly1305 = "0.10"
