[package]
name = "ram_map"
version = "0.1.0"
edition = "2021"
publish = false

[dependencies]
egui = { version = "=0.32.3", default-features = false, features = ["default_fonts"] }
eframe = { version = "=0.32.3", default-features = false, features = ["glow", "x11", "default_fonts"] }
