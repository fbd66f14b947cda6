[package]
name = "anyangle"
version = "0.1.0"
edition = "2021"
publish = false

[dependencies]
approx = "*"
bit-set = "*"
i_triangle = "*"
num-traits = "*"
rstar = "*"
serde = { version = "*", features = ["derive"] }
toml = "*"
macroquad = "*"
polygon_unionfind = "*"
