[package]
name = "tcp_rust"
version = "0.1.0"
edition = "2021"
publish = false

[dependencies]
etherparse = "=0.10.1"
tun-tap = "0.1"
