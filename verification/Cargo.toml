[package]
name = "dem_shade"
version = "0.1.0"
edition = "2021"
publish = false

[dependencies]
anyhow = "1"
clap = { version = "4", features = ["derive"] }
esri_ascii_grid = "*"
image = "*"
walkdir = "2"
