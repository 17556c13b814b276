[package]
name = "picker_hook"
version = "0.1.0"
edition = "2021"
publish = false

[dependencies]
walkdir = "2"
retour = { version = "0.3", features = ["static-detour"] }
windows-core = "0.58"
windows = { version = "0.58", features = ["implement", "Win32_Foundation", "Win32_System_Com", "Win32_System_LibraryLoader", "Win32_System_SystemServices", "Win32_UI_Shell", "Win32_UI_Shell_Common", "Win32_UI_WindowsAndMessaging"] }
