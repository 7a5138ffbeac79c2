[package]
name = "tdoa_solver"
version = "0.1.0"
edition = "2021"
publish = false

[dependencies]
colorgrad = "0.6"
glam = "0.24"
image = { version = "0.24", default-features = false, features = ["png"] }
itertools = "0.12"
rand = "0.8"
