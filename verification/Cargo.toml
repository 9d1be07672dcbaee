[package]
name = "ctl460_rust"
version = "0.1.0"
edition = "2021"
publish = false

[dependencies]
windows-sys = { version = "0.59", features = ["Win32_Foundation", "Win32_UI_WindowsAndMessaging", "Win32_UI_Input_KeyboardAndMouse", "Win32_System_Threading", "Win32_System_Memory", "Win32_System_SystemInformation"] }
serde = { version = "1", features = ["derive"] }
toml = "0.8"
ctrlc = "3"
hidapi = "2"
