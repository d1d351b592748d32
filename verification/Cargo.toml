[package]
name = "lightmapper"
version = "0.1.0"
edition = "2021"
publish = false

[dependencies]
ash = "0.38"
rayon = "1"
image = { version = "0.25", default-features = false, features = ["bmp"] }
