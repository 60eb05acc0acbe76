[package]
name = "fhistory"
version = "0.1.0"
edition = "2021"
publish = false

[dependencies]
rust-crypto = "0.2"
deflate = "0.7"
inflate = "0.4"
walkdir = "2"
getopts = "0.2"
colored = "1"
time = "0.1"
libc = "0.2"

[dev-dependencies]
regex = "1"
