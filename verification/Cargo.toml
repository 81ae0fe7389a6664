[package]
name = "explorer_core"
version = "0.1.0"
edition = "2021"
publish = false

[dependencies]
statrs = "=0.18.0"
rand = "=0.8.8"
rand_chacha = "=0.3.1"
