[package]
name = "piet_verified"
version = "0.1.0"
edition = "2021"
publish = false

[dependencies]
piet = "0.6"
xi-unicode = "0.3"
unicode-segmentation = "1"
