[package]
name = "aquarelle"
version = "0.3.0"
edition = "2021"
publish = false

[dependencies]
palette = "0.7"
rand = "0.8"
rand_chacha = "0.3"
tiny-skia = "0.11"
