[package]
name = "jsonfmt"
version = "0.1.0"
edition = "2021"
publish = false

[dependencies]
serde = "=1.0.229"
serde_json = { version = "=1.0.154", features = ["preserve_order", "float_roundtrip"] }
eframe = { version = "=0.36.2", default-features = false, features = ["default_fonts", "glow", "x11"] }
egui = "=0.36.2"
egui_json_tree = "=0.17.0"
arboard = { version = "=3.7.0", default-features = false }
image = { version = "=0.25.10", default-features = false, features = ["png"] }
