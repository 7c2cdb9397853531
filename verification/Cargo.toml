[package]
name = "ctxgraph"
version = "0.1.0"
edition = "2021"
publish = false

[dependencies]
ariadne = "*"
solang-parser = "*"
