[package]
name = "tm"
version = "0.1.0"
edition = "2021"
publish = false

[dependencies]
ahash = "0.8"
num-integer = "0.1"
