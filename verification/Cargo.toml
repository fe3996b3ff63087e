[package]
name = "learnminal"
version = "0.1.0"
edition = "2021"
publish = false

[dependencies]
alacritty_terminal = "*"
home = "*"
log = "*"
reqwest = { version = "*", default-features = false, features = ["blocking", "json", "form"] }
rusqlite = { version = "*", features = ["bundled"] }
serde = { version = "*", features = ["derive"] }
serde_json = "*"
tempfile = "*"
unicode-width = "*"
uuid = { version = "*", features = ["v4"] }
winit = "*"
