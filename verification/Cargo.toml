[package]
name = "raytracer"
version = "0.1.0"
edition = "2021"
publish = false

[dependencies]
rand = "0.9"
rayon = "1"
bytemuck = { version = "1", features = ["derive"] }
winit = "0.30"
pixels = "0.15"
