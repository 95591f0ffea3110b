[package]
name = "synesthesia"
version = "0.1.0"
edition = "2021"
publish = false

[dependencies]
fastrand = "2"
glam = "0.29"
egui = "0.29"
nokhwa = { version = "0.10", default-features = false, features = ["input-v4l"] }
