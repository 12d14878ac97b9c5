[package]
name = "akvisionator"
version = "0.1.0"
edition = "2021"
publish = false

[dependencies]
crossterm = "*"
windows-sys = { version = "*", features = ["Win32_Foundation", "Win32_Graphics_Gdi", "Win32_UI_WindowsAndMessaging", "Win32_UI_Input_KeyboardAndMouse"] }
