[package]
name = "granular_data"
version = "0.1.0"
edition = "2021"
publish = false

[dependencies]
arrow-array = "*"
arrow-buffer = "*"
bitvec = "1"
indexmap = "2"
