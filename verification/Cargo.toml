[package]
name = "blohai"
version = "0.1.0"
edition = "2021"

[dependencies]
regex-syntax = { version = "=0.8.11", features = ["unicode-perl"] }

[dev-dependencies]
regex = "=1.13.1"
