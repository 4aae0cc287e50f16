[package]
name = "fsz"
version = "0.1.0"
edition = "2021"
publish = false

[dependencies]
clap = { version = "4", features = ["derive"] }
human_bytes = "0.4"
ignore = "0.4"
ratatui = "0.29"
