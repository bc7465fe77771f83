[package]
name = "qrctrl"
version = "0.8.0"
edition = "2021"
publish = false

[dependencies]
rand = "0.9"
uuid = { version = "1", features = ["v4"] }
base64 = "0.22"
image = { version = "0.25", default-features = false, features = ["png", "jpeg", "gif", "bmp", "webp"] }
qrcode = { version = "*", default-features = false }
serde_json = "1"
serde = { version = "1", features = ["derive"] }
toml = "*"
axum = { version = "0.8", features = ["ws"] }
tokio = { version = "1", features = ["full"] }
tokio-util = { version = "0.7", features = ["io"] }
futures-util = "0.3"
clap = { version = "4", features = ["derive"] }
dirs = "*"
hostname = "*"
if-addrs = "*"
arboard = "3"
enigo = "*"
rust-embed = { version = "8", features = ["debug-embed"] }
mime_guess = "2"
tracing = "0.1"
parking_lot = "0.12"
