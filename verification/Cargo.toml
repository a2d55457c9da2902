[package]
name = "bandlu"
version = "0.1.0"
edition = "2021"
publish = false

[dependencies]
nalgebra = "*"
pico-args = "*"
plotters = { version = "*", default-features = false, features = ["svg_backend", "line_series"] }
rand = "*"
