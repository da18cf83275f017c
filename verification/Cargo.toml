[package]
name = "kfst_rs"
version = "0.1.0"
edition = "2021"
publish = false

[dependencies]
im = "*"
indexmap = "*"
lzma-rs = "*"
rustc_apfloat = "*"
