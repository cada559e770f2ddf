[package]
name = "catplush"
version = "0.1.0"
edition = "2021"
publish = false

[dependencies]
frienderer = "=0.18.0"
glam = "=0.32.1"
glfw = "=0.63.0"
glow = "=0.17.0"
image = "=0.25.10"
