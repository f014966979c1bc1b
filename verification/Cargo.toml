[package]
name = "download_parallel"
version = "0.1.0"
edition = "2021"
publish = false

[dependencies]
fltk = "1"
native-tls = "0.2"
