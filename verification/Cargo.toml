[package]
name = "installer_gui"
version = "0.1.0"
edition = "2021"
publish = false

[dependencies]
serde = { version = "1", features = ["derive"] }
serde_json = "1"
eframe = { version = "0.29", default-features = false, features = ["default_fonts", "glow", "x11"] }
egui = "0.29"
egui-phosphor = "0.7"
image = { version = "0.25", default-features = false, features = ["png"] }
