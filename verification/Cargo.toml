[package]
name = "udp_tcp_copycat"
version = "0.1.0"
edition = "2021"
publish = false

[dependencies]
async-channel = "1"
async-std = "1"
async-trait = "0.1"
futures = "0.3"
rand = "0.8"
