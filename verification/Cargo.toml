[package]
name = "aquarium"
version = "0.1.0"
edition = "2021"
publish = false

[dependencies]
maplit = "1"
strided = "*"
