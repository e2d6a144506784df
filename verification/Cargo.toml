[package]
name = "bencode"
version = "0.1.0"
edition = "2021"
publish = false

[dependencies]
sha1 = "0.10"
hex = "0.4"
rand = "0.8"
anyhow = "1"
reqwest = { version = "0.11", default-features = false, features = ["blocking"] }
