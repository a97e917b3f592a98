[package]
name = "r2d2p2"
version = "0.1.0"
edition = "2021"
publish = false

[dependencies]
bplustree = "*"
bson = "2"
chrono = "0.4"
sanitize-filename = "*"
