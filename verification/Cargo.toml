[package]
name = "node_canvas"
version = "0.1.0"
edition = "2021"
publish = false

[dependencies]
slotmap = "=1.1.1"
rand = "=0.8.8"
egui = "=0.28.1"
