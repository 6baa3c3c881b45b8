[package]
name = "oh_hi"
version = "0.1.0"
edition = "2021"

[dependencies]
itertools = "*"
