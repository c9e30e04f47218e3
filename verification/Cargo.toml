[package]
name = "kademlia"
version = "0.1.0"
edition = "2021"
publish = false

[dependencies]
rand = "*"
rust-crypto = "*"
