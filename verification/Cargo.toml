[package]
name = "avatar_cards"
version = "0.1.0"
edition = "2021"
publish = false

[dependencies]
image = "0.24"
imageproc = "0.23"
rusttype = "0.9"
reqwest = { version = "0.11", default-features = false, features = ["rustls-tls"] }
