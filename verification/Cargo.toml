[package]
name = "asleep"
version = "0.1.0"
edition = "2021"
publish = false

[dependencies]
libc = "0.2"
windows-sys = { version = "*", features = ["Win32_Foundation", "Win32_System_Console", "Win32_System_Time"] }

[dev-dependencies]
chrono = "0.4"
