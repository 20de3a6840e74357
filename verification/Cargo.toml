[package]
name = "bible_reading_progress"
version = "0.1.0"
edition = "2021"
publish = false

[dependencies]
chrono = "*"
fuzzy-matcher = "*"
serde = { version = "*", features = ["derive"] }
serde_json = "*"
serde_yaml = "*"
indexmap = { version = "*", features = ["serde"] }
clap = { version = "*", features = ["derive"] }
color-eyre = "*"
crossterm = "*"
ratatui = "*"
tui-tree-widget = "*"
dirs = "*"
