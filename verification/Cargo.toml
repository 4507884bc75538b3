[package]
name = "langram"
version = "0.1.0"
edition = "2021"
publish = false

[dependencies]
multimap = { version = "*", default-features = false }
