[package]
name = "migparser"
version = "0.1.0"
edition = "2021"
publish = false

[dependencies]
migformatting = "*"
