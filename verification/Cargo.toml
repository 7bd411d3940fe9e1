[package]
name = "shadow-pane"
version = "0.1.0"
edition = "2021"
publish = false

[dependencies]
ansi-to-tui = "*"
anyhow = "1"
crossterm = "0.29"
ratatui = "*"
serde = { version = "1", features = ["derive"] }
serde_json = "1"
unicode-width = "*"
