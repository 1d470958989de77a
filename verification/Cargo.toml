[package]
name = "kartei"
version = "0.1.0"
edition = "2021"
publish = false

[dependencies]
clap = { version = "4", features = ["derive", "env"] }
notify-debouncer-full = "0.5"
nucleo-matcher = "0.3"
ratatui = "0.29"
uuid = { version = "1", features = ["v4"] }
