[package]
name = "massif_parser"
version = "0.1.0"
edition = "2021"
publish = false

[dependencies]
egui_plot = "0.27"
size = "0.4"

[dev-dependencies]
nom = "7"
