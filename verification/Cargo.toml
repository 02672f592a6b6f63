[package]
name = "ponent"
version = "0.1.0"
edition = "2021"
publish = false

[dependencies]
num-bigint = "0.4"
num-traits = "0.2"
rayon = "1"
regex-syntax = "0.8"
rustc-hash = "2"
