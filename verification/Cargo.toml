[package]
name = "browser_picker"
version = "0.1.0"
edition = "2021"
publish = false

[dependencies]
winreg = "0.52"
winapi = { version = "0.3", features = ["winuser", "wingdi", "dwmapi", "libloaderapi", "shellapi", "windef", "minwindef"] }
