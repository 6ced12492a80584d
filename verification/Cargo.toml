[package]
name = "planar_graph"
version = "0.1.0"
edition = "2021"
publish = false

[dependencies]
slotmap = "=1.1.1"
ord_subset = "=3.1.2"
macroquad = "=0.3.26"
egui-macroquad = "=0.15.0"
rand = "=0.8.8"
serde = { version = "=1.0.229", features = ["derive"] }
serde_json = "=1.0.154"
