[package]
name = "sdodps"
version = "0.1.0"
edition = "2021"
publish = false

[dependencies]
anyhow = "1"
bindgen = "0.71"
clap = { version = "4", features = ["derive"] }
crossterm = "0.28"
libc = "0.2"
ratatui = "0.29"
serde = { version = "1", features = ["derive"] }
toml = "0.8"
