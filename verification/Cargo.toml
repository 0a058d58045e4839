[package]
name = "vmsim"
version = "0.1.0"
edition = "2021"
publish = false

[dependencies]
raw_pointer = "*"
