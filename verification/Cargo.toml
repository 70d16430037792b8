[package]
name = "reil"
version = "0.1.0"
edition = "2021"
publish = false

[dependencies]
notify = "4"
regex-syntax = "0.8"

[dev-dependencies]
regex = "1"
