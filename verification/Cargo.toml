[package]
name = "petal"
version = "0.1.0"
edition = "2021"
publish = false

[dependencies]
winit = "=0.29.15"
softbuffer = "=0.4.8"
crossbeam-channel = "=0.5.17"
libc = "=0.2.191"
windows-sys = { version = "=0.48.0", features = ["Win32_Foundation", "Win32_System_Threading"] }
