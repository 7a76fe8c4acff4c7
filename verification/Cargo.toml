[package]
name = "gitr"
version = "0.1.0"
edition = "2021"
publish = false

[dependencies]
chrono = { version = "0.4", default-features = false, features = ["alloc"] }
git2 = { version = "0.19", default-features = false }
eframe = { version = "0.29", default-features = false, features = ["glow", "x11", "default_fonts"] }
egui = { version = "0.29", default-features = false, features = ["default_fonts"] }
webbrowser = "1"
