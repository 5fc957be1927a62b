[package]
name = "minedesign"
version = "0.1.0"
edition = "2021"
publish = false

[dependencies]
rayon = "=1.12.0"
chrono = "=0.4.45"
earcut = "*"
thousands = "*"
