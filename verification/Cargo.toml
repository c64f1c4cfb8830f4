[package]
name = "ruzik"
version = "0.1.0"
edition = "2021"
publish = false

[dependencies]
num-complex = "0.4"
raylib = "5"
