[package]
name = "triangle_mesh_filler"
version = "0.1.0"
edition = "2021"
publish = false

[dependencies]
anyhow = "=1.0.104"
eframe = { version = "=0.29.1", default-features = false, features = ["glow", "default_fonts", "x11"] }
egui = "=0.29.1"
image = { version = "=0.25.10", default-features = false, features = ["png", "jpeg"] }
rayon = "=1.12.0"
rfd = "=0.15.4"
