[package]
name = "video_sandbox"
version = "0.1.0"
edition = "2021"
publish = false

[dependencies]
anyhow = "1"
image = { version = "*", default-features = false, features = ["png", "jpeg", "bmp", "gif"] }
rand = "*"
rand_xoshiro = "*"
rayon = "1"
rsmpeg = "*"
bytemuck = { version = "1", features = ["derive"] }
