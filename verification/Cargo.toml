[package]
name = "tbtool"
version = "0.1.0"
edition = "2021"
publish = false

[dependencies]
encoding_rs = "0.8"
md-5 = "0.10"
zip = { version = "2", default-features = false, features = ["deflate"] }
thiserror = "2"
windows-sys = { version = "*", features = ["Win32_Foundation", "Win32_UI_Shell", "Win32_UI_WindowsAndMessaging"] }
wmi = "*"
