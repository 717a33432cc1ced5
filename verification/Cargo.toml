[package]
name = "mines"
version = "0.1.0"
edition = "2021"
publish = false

[dependencies]
argparse = "=0.2.2"
rand = "=0.8.8"
sdl2 = { version = "=0.35.2", features = ["ttf", "unsafe_textures"] }
