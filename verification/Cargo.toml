[package]
name = "roguelike"
version = "0.1.0"
edition = "2021"
publish = false

[dependencies]
rand = "0.7"
rand_pcg = "0.2"
rand_distr = "0.2"
noise = "0.6"
sdl2 = { version = "0.34", features = ["image", "ttf"] }
