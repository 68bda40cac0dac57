[package]
name = "ruskk_keys"
version = "0.1.0"
edition = "2021"
publish = false

[dependencies]
x11-keysymdef = "*"
