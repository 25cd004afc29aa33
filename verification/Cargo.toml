[package]
name = "linglun"
version = "0.1.0"
edition = "2021"
publish = false

[dependencies]
pdf-writer = "*"
owned_ttf_parser = "*"
