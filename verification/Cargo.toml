[package]
name = "file_scrambler"
version = "0.1.0"
edition = "2021"
publish = false

[dependencies]
rand = "0.8"
filetime = "0.2"
chrono = "0.4"
