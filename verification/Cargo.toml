[package]
name = "broccoli"
version = "0.1.0"
edition = "2021"
publish = false

[dependencies]
axgeom = "*"
compt = "*"
rayon = "*"
revec = "*"
twounordered = "*"
