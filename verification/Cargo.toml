[package]
name = "plugovr"
version = "0.3.0"
edition = "2021"
publish = false

[dependencies]
encoding_rs = "0.8"
rand = "0.10"
arboard = "3"
