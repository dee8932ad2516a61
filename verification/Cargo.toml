[package]
name = "wfc_tiled"
version = "0.1.0"
edition = "2021"
publish = false

[dependencies]
wfc = "=0.10.7"
grid_2d = "=0.15.3"
coord_2d = "=0.3.7"
rand = "=0.8.8"
image = { version = "=0.25.10", default-features = false, features = ["png"] }
