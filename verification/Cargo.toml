[package]
name = "fruity"
version = "0.1.0"
edition = "2021"
publish = false

[dependencies]
itertools = "0.10"
rayon = "1"
cgmath = "0.18"
bytemuck = { version = "1", features = ["derive"] }
css-color-parser = "0.1"
yaml-rust = "0.4"
