[package]
name = "g13-suite"
version = "0.1.0"
edition = "2021"
publish = false

[dependencies]
anyhow = "1"
evdev = "0.12"
serde = { version = "1", features = ["derive"] }
serde_json = "1"
toml = "0.8"
tiny_http = "0.12"
embedded-graphics = "0.8"
eframe = { version = "0.29", default-features = false, features = ["default_fonts", "glow", "x11"] }
image = { version = "0.25", default-features = false, features = ["png"] }
