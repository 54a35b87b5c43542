[package]
name = "minimizers"
version = "0.1.0"
edition = "2021"
publish = false

[dependencies]
criterion = "*"
itertools = "*"
packed-seq = "*"
rand = "*"
