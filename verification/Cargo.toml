[package]
name = "string_art"
version = "0.1.0"
edition = "2021"
publish = false

[dependencies]
bresenham = "0.1"
rand = "0.8"
image = "0.24"
