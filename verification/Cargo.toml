[package]
name = "paperlite"
version = "0.1.0"
edition = "2021"
publish = false

[dependencies]
eframe = { version = "0.29", default-features = false, features = ["glow", "default_fonts", "x11", "wayland"] }
image = { version = "0.25", default-features = false, features = ["png", "jpeg", "webp", "bmp"] }
rfd = { version = "0.15", default-features = false, features = ["xdg-portal", "tokio"] }
serde = { version = "1", features = ["derive"] }
serde_json = "1"
walkdir = "2"
crossbeam-channel = "0.5"
windows-sys = { version = "0.59", features = ["Win32_Foundation", "Win32_UI_WindowsAndMessaging", "Win32_System_Console"] }
