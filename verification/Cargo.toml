[package]
name = "hedron"
version = "0.1.0"
edition = "2021"
publish = false

[dependencies]
glam = "*"
num-traits = "*"
rand = "*"
earcutr = "*"
nalgebra = { version = "*", default-features = false, features = ["std"] }
lazy_static = "*"
