[package]
name = "trigram_index"
version = "0.1.0"
edition = "2021"
publish = false

[dependencies]
bit-set = "*"
compress = "*"
regex-syntax = "0.4"
