[package]
name = "archive"
version = "0.1.0"
edition = "2021"
publish = false

[dependencies]
base64 = "0.13"
chrome_native_messaging = "*"
downloader = "*"
exitcode = "1"
md-5 = "0.10"
rayon = "1"
serde = { version = "1", features = ["derive"] }
serde_json = "1"
user32-sys = "*"
wfd = "*"
winapi = { version = "0.3", features = ["winuser", "windef"] }
winreg = "*"
