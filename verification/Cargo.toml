[package]
name = "slabigator"
version = "0.9.5"
edition = "2021"
publish = false

[dev-dependencies]
rand = "0.9"
