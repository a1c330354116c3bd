[package]
name = "busy_beaver"
version = "0.1.0"
edition = "2021"
publish = false

[dependencies]
term = "*"
