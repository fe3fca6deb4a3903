[package]
name = "fire_cursor"
version = "0.1.0"
edition = "2021"
publish = false

[dependencies]
anyhow = "=1.0.104"
rand = "=0.8.8"
raw-window-handle = "=0.6.2"
windows = { version = "=0.52.0", features = ["Win32_Foundation", "Win32_Graphics_Gdi", "Win32_UI_WindowsAndMessaging"] }
winit = { version = "=0.29.15", default-features = false, features = ["rwh_06", "x11"] }

[dev-dependencies]
glam = "=0.25.0"
