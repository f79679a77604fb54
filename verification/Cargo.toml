[package]
name = "interface"
version = "0.1.0"
edition = "2021"
publish = false

[dependencies]
svg = "*"
font = "*"
glium = "*"
