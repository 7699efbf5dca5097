[package]
name = "kbdreg"
version = "0.1.0"
edition = "2021"
publish = false

[dependencies]
clap = { version = "=4.6.7", features = ["derive"] }
is_elevated = "=0.1.2"
widestring = "=1.2.1"
windows = { version = "=0.58.0", features = ["Win32_Foundation", "Win32_System_Registry", "Win32_System_Com", "Win32_UI_Shell"] }
