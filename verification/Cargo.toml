[package]
name = "raytrace"
version = "0.1.0"
edition = "2021"
publish = false

[dependencies]
rand = "0.10"
image = { version = "0.25", default-features = false, features = ["png"] }
itertools = "0.14"
