[package]
name = "maze_exit"
version = "0.1.0"
edition = "2021"
publish = false

[dependencies]
zstd = "*"
image = { version = "*", default-features = false, features = ["png", "bmp", "jpeg"] }
clap = { version = "*", features = ["derive"] }
