[package]
name = "teleport"
version = "1.1.0"
edition = "2021"
publish = false

[dependencies]
clap = { version = "4", features = ["derive"] }
ctrlc = "3"
lz4 = "1"
lz4_flex = "0.11"
socket2 = "0.5"
windows-sys = { version = "0.52", features = [
    "Win32_Foundation",
    "Win32_Media",
    "Win32_Security",
    "Win32_System_Memory",
    "Win32_System_Threading",
] }
