[package]
name = "x11_key_remapper"
version = "0.1.0"
edition = "2021"
publish = false

[dependencies]
x11-dl = "*"
