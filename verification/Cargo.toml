[package]
name = "folder_icon_changer"
version = "0.1.0"
edition = "2021"
publish = false

[dependencies]
image = { version = "=0.25.10", default-features = false, features = ["png"] }
serde = { version = "=1.0.229", features = ["derive"] }
toml = "=1.1.8"
notify = "=8.2.1"
eframe = { version = "=0.37.0", default-features = false, features = ["glow", "default_fonts", "x11"] }
rfd = { version = "=0.17.2", default-features = false, features = ["xdg-portal"] }
windows = { version = "=0.62.2", features = ["Win32_Foundation", "Win32_Graphics_Gdi", "Win32_UI_WindowsAndMessaging", "Win32_UI_Shell"] }
