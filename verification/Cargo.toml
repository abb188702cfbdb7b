[package]
name = "health_sync"
version = "0.1.0"
edition = "2021"
publish = false

[dependencies]
minhook = "*"
windows = { version = "0.58", features = ["Win32_Foundation", "Win32_System_LibraryLoader", "Win32_System_SystemServices"] }
