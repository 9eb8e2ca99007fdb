[package]
name = "change_proxy"
version = "0.1.0"
edition = "2021"
publish = false

[dependencies]
clap = { version = "4", features = ["derive"] }
dirs = "*"
file-owner = "*"
rust-ini = "*"
json = "*"
sudo = "*"
systemctl = "*"
tracing = "*"
tracing-subscriber = "*"
