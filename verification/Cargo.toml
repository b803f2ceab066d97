[package]
name = "omninote"
version = "0.1.0"
edition = "2021"
publish = false

[dependencies]
chrono = "=0.4.45"
fuzzy-matcher = "=0.3.7"
egui = { version = "0.29", default-features = false }
