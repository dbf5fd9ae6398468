[package]
name = "lince"
version = "0.1.0"
edition = "2021"
publish = false

[dependencies]
memchr = "2"
goblin = "0.8"
indicatif = "0.17"
libloading = "0.8"
sysinfo = "0.29"
fltk = "1"
windows-sys = { version = "0.48", features = ["Win32_Foundation", "Win32_System_Diagnostics_Debug", "Win32_System_Memory", "Win32_System_Threading"] }

[dev-dependencies]
tempfile = "3"
