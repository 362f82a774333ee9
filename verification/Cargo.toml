[package]
name = "firewall"
version = "0.1.0"
edition = "2021"
publish = false

[dependencies]
smoltcp = "0.7"
libc = "=0.2.191"
