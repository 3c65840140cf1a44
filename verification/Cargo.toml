[package]
name = "herdr_config"
version = "0.1.0"
edition = "2021"
publish = false

[dependencies]
serde_json = "1"
toml = "*"
windows-sys = { version = "*", features = ["Win32_System_SystemInformation"] }
