[package]
name = "uemacs"
version = "0.1.0"
edition = "2021"
publish = false

[dependencies]
regex = "1"
libc = "0.2"
