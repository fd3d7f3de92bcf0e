[package]
name = "oil_dig"
version = "0.1.0"
edition = "2021"
publish = false

[dependencies]
rand = "=0.7.3"
piston = "*"
piston2d-graphics = "*"
piston2d-opengl_graphics = "*"
pistoncore-glutin_window = "*"
conrod = "0.51"
