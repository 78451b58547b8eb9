[package]
name = "realpath_ext"
version = "0.1.0"
edition = "2021"
publish = false

[dependencies]
errno = "*"
libc = "0.2"
