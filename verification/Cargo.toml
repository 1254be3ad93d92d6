[package]
name = "easy_fs"
version = "0.1.0"
edition = "2021"
publish = false

[dependencies]
bitflags = "1.2"
lazy_static = "1.4"
spin = "0.7"
