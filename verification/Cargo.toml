[package]
name = "minesweeper_replay"
version = "0.1.0"
edition = "2021"
publish = false

[dependencies]
clap = { version = "4", features = ["derive"] }
gif = "*"
image = "*"
serde = { version = "1", features = ["derive"] }
serde_json = "1"
thiserror = "*"
ureq = "2"
