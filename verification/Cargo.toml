[package]
name = "flavours"
version = "0.1.0"
edition = "2021"
publish = false

[dependencies]
anyhow = "=1.0.104"
base16_color_scheme = "=0.3.1"
calm_io = "=0.1.1"
clap = { version = "=4.6.7", features = ["cargo"] }
dirs = "=7.0.0"
hex = "=0.4.3"
image = { version = "=0.25.10", default-features = false, features = ["bmp", "gif", "ico", "jpeg", "png", "pnm", "tga", "tiff", "webp"] }
serde_json = "=1.0.154"
serde_yaml = "=0.9.34"
