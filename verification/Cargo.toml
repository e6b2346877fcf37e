[package]
name = "glyph_evolution"
version = "0.1.0"
edition = "2021"
publish = false

[dependencies]
rand = "0.9"
fontdue = "*"
image = { version = "*", default-features = false, features = ["png"] }
