[package]
name = "wmde_settings"
version = "0.1.0"
edition = "2021"
publish = false

[dependencies]
ron = "=0.9.0"
serde = { version = "=1.0.229", features = ["derive"] }
hostname-validator = "=1.1.1"
libc = "=0.2.191"
freedesktop-desktop-entry = { version = "=0.8.4", default-features = false }
