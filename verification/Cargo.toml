[package]
name = "wave_collapse"
version = "0.1.0"
edition = "2021"
publish = false

[dependencies]
rand = "=0.8.8"
image = "=0.24.9"
show-image = "*"
