[package]
name = "forkstack"
version = "0.1.0"
edition = "2021"
publish = false

[dependencies]
clap = { version = "=4.6.7", features = ["derive"] }
crossterm = "=0.28.1"
git2 = { version = "=0.20.4", default-features = false }
ratatui = "=0.29.0"
sapling-renderdag = "*"
serde = { version = "=1.0.229", features = ["derive"] }
serde_json = "=1.0.154"
