[package]
name = "random_video_picker"
version = "0.1.0"
edition = "2021"
publish = false

[dependencies]
rand = "*"
chrono = "*"
actix-web = "*"
actix-files = "*"
clap = { version = "*", features = ["derive"] }
dialoguer = "*"
dirs = "*"
dotenvy = "*"
env_logger = "*"
local-ip-address = "*"
log = "*"
open = "*"
qrcode = "*"
serde = { version = "*", features = ["derive"] }
serde_json = "*"
shellexpand = "*"
tokio = { version = "*", features = ["rt-multi-thread", "macros", "time"] }
walkdir = "*"
