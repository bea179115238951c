[package]
name = "battle_sheep_solver"
version = "0.1.0"
edition = "2021"
publish = false

[dependencies]
rayon = "1"
eframe = { version = "0.22", default-features = false, features = ["default_fonts", "glow"] }
egui_extras = { version = "0.22", default-features = false, features = ["image"] }
image = { version = "0.24", default-features = false, features = ["png"] }
