[package]
name = "kokonachat"
version = "0.1.0"
edition = "2021"
publish = false

[dependencies]
aes-gcm = "0.10"
anyhow = "1"
chrono = { version = "0.4", default-features = false, features = ["clock"] }
clap = { version = "4", features = ["derive"] }
crossterm = "0.28"
curve25519-dalek = "4"
dirs = "5"
ed25519-dalek = "2"
egui = { version = "0.34", default-features = false, features = ["default_fonts"] }
egui-winit = { version = "0.34", default-features = false, features = ["x11"] }
env_logger = "0.11"
hex = "0.4"
hkdf = "0.12"
image = { version = "0.25", default-features = false, features = ["bmp", "gif", "jpeg", "png", "webp"] }
local-ip-address = "0.6"
log = "0.4"
pollster = "0.4"
qr_code = "*"
rand = "0.8"
ratatui = "0.29"
serde = { version = "1", features = ["derive"] }
serde_json = "1"
sha2 = "0.10"
socket2 = { version = "0.5", features = ["all"] }
tokio = { version = "1", features = ["io-util", "macros", "net", "rt-multi-thread", "sync", "time"] }
toml = "0.8"
winit = { version = "0.30", default-features = false, features = ["rwh_06", "x11"] }
x25519-dalek = { version = "2", features = ["static_secrets"] }
