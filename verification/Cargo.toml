[package]
name = "string_art"
version = "0.1.0"
edition = "2021"
publish = false

[dependencies]
rayon = "1.5"
image = { version = "0.23", default-features = false, features = ["png", "jpeg", "gif", "bmp"] }
clap = { version = "3", features = ["derive"] }
csv = "1.1"
ndarray = "0.15"
nalgebra = "0.30"
