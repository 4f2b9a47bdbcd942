[package]
name = "maze_generator"
version = "0.1.0"
edition = "2021"
publish = false

[dependencies]
rand = "*"
image = { version = "*", default-features = false, features = ["png"] }
eframe = { version = "*", default-features = false, features = ["glow", "x11", "default_fonts"] }
