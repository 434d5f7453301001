[package]
name = "clove4apm"
version = "0.1.0"
edition = "2021"
publish = false

[dependencies]
sysinfo = "0.37"
windows-sys = { version = "=0.61.2", features = ["Win32_Foundation", "Win32_System_ProcessStatus", "Win32_System_Threading"] }
