[package]
name = "dirty_daw"
version = "0.1.0"
edition = "2021"
publish = false

[dependencies]
eframe = { version = "=0.29.1", default-features = false, features = ["default_fonts", "glow", "x11"] }
fastrand = "=2.3.0"
rfd = { version = "=0.15.4", default-features = false, features = ["xdg-portal", "tokio"] }
serde = { version = "1", features = ["derive"] }
serde_json = "1"
