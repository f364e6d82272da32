[package]
name = "raytracer"
version = "0.1.0"
edition = "2021"
publish = false

[dependencies]
clap = { version = "2.34", default-features = false }
nalgebra = { version = "0.33", default-features = false, features = ["std"] }
png = "0.17"
rand = "0.8"
rayon = "1"
