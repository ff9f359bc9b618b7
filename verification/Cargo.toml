[package]
name = "zk_disorder"
version = "0.1.0"
edition = "2021"
publish = false

[dependencies]
fract = "*"
rand = "0.9"
