[package]
name = "film_exif"
version = "0.1.0"
edition = "2021"
publish = false

[dependencies]
walkdir = "*"
csv = "*"
clap = { version = "*", features = ["derive"] }
dirs = "*"
dotenv = "*"
log = "*"
pretty_env_logger = "*"
