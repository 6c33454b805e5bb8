[package]
name = "color_reflection"
version = "0.1.0"
edition = "2021"
publish = false

[dependencies]
eframe = { version = "*", default-features = false, features = ["glow", "x11", "default_fonts"] }
egui = "*"
image = { version = "*", default-features = false, features = ["png"] }
rfd = "*"
png = "*"
