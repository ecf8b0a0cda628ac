[package]
name = "engine"
version = "0.1.0"
edition = "2021"
publish = false

[dependencies]
ahash = "0.8"
bytemuck = { version = "1", features = ["derive"] }
downcast-rs = "1.2"
egui = "=0.26.2"
egui-gizmo = "=0.16.2"
futures-lite = "2"
log = "0.4"
nalgebra = "0.32"
raw-window-handle = "0.5"
shipyard = "0.6"
