[package]
name = "flowcell_fit"
version = "0.1.0"
edition = "2021"
publish = false

[dependencies]
csv = "1"
eframe = { version = "0.26", default-features = false, features = ["glow"] }
egui = { version = "0.26", default-features = false }
egui_plot = { version = "0.26", default-features = false }
plotters = { version = "0.3", default-features = false, features = ["bitmap_backend", "bitmap_encoder", "line_series"] }
rand = "0.8"
rayon = "1"
