[package]
name = "packetvisor"
version = "0.1.0"
edition = "2021"
publish = false

[dependencies]
libc = "0.2"
pnet = "*"
signal-hook = "0.3"
