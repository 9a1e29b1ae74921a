[package]
name = "fileorg"
version = "0.1.0"
edition = "2021"
publish = false

[dependencies]
byteorder = "1"
chrono = "0.4"
rand = "0.7"
