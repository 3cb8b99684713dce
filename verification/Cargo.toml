[package]
name = "oni_net"
version = "0.1.0"
edition = "2021"
publish = false

[dependencies]
rand = "0.8"
chacha20poly1305 = "0.10"
bincode = "1"
