[package]
name = "dnd_reindex"
version = "0.1.0"
edition = "2021"
publish = false

[dependencies]
egui = "*"
eframe = { version = "*", default-features = false, features = ["glow"] }
hello_egui = { version = "*", default-features = false, features = ["dnd"] }
