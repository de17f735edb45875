[package]
name = "bsdiff_rs"
version = "0.1.0"
edition = "2021"
publish = false

[dependencies]
bzip2 = "*"
rand = "0.8"
rand_pcg = "0.3"
