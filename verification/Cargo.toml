[package]
name = "path_env"
version = "0.1.0"
edition = "2021"
publish = false

[dependencies]
memchr = "*"
bytecount = "*"
