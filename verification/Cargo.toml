[package]
name = "mandelbrot"
version = "0.1.0"
edition = "2021"
publish = false

[dependencies]
crossbeam = "0.8"
image = { version = "0.24", default-features = false, features = ["png"] }
macroquad = { version = "0.3", default-features = false }
num = "0.4"
