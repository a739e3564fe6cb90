[package]
name = "dark_bassline"
version = "0.1.0"
edition = "2021"
publish = false

[dependencies]
midly = "=0.5.3"
rand = "=0.8.5"
rand_chacha = "=0.3.1"
rfd = "0.15"
