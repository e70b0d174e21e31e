[package]
name = "video_effects_processor"
version = "0.1.0"
edition = "2021"
publish = false

[dependencies]
image = { version = "0.25", default-features = false, features = ["png", "jpeg", "bmp", "gif"] }
ffmpeg-next = "*"
log = "0.4"
