[package]
name = "porter"
version = "0.1.0"
edition = "2021"
publish = false

[dependencies]
image = "=0.24.9"
eframe = { version = "=0.24.1", default-features = false, features = ["glow", "default_fonts", "x11"] }
env_logger = { version = "=0.10.2", default-features = false }
rfd = "=0.12.1"
