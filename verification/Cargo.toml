[package]
name = "mapgen"
version = "0.1.0"
edition = "2021"
publish = false

[dependencies]
rand = "*"
image = "*"
imageproc = "*"
clap = { version = "*", features = ["derive"] }
log = "*"
env_logger = "*"
chrono = "*"
