[package]
name = "audio_sort"
version = "0.1.0"
edition = "2021"
publish = false

[dependencies]
symphonia = "0.5"
eframe = { version = "0.32", default-features = false, features = ["default_fonts", "glow", "x11"] }
rfd = { version = "0.15", default-features = false, features = ["xdg-portal", "tokio"] }
