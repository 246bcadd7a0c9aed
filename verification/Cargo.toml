[package]
name = "vellum"
version = "0.1.0"
edition = "2021"
publish = false

[dependencies]
aws-lc-rs = "*"
base64 = "*"
chrono = "*"
uuid = { version = "*", features = ["v7"] }
git2 = "*"
serde = { version = "*", features = ["derive"] }
serde_json = "*"
toml = "*"
hostname = "*"
xdg = "*"
humantime = "*"
fd-lock = "*"
signal-hook = "*"
