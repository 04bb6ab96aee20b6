[package]
name = "fractals"
version = "0.1.0"
edition = "2021"
publish = false

[dependencies]
glium = "=0.31.0"
num = "=0.4.3"
pixel-canvas = "=0.2.3"
rayon = "=1.12.0"
scarlet = "=1.2.0"
