[package]
name = "byoh_core"
version = "0.1.0"
edition = "2021"
publish = false

[dependencies]
clap = { version = "4", features = ["derive"] }
egui = { version = "0.30", default-features = false, features = ["default_fonts"] }
egui-wgpu = { version = "0.30", default-features = false }
egui-winit = { version = "0.30", default-features = false, features = ["x11"] }
evalexpr = "11"
glyphon = "0.7"
json_comments = "0.2"
pollster = "0.4"
raw-window-handle = "0.6"
reqwest = { version = "0.12", default-features = false, features = ["blocking", "json", "rustls-tls"] }
serde = { version = "1", features = ["derive"] }
serde_json = "1"
thiserror = "1"
wgpu = { version = "23", default-features = false, features = ["wgsl"] }
winit = { version = "0.30", default-features = false, features = ["rwh_06", "x11"] }
x11rb = "0.13"
zip = { version = "2", default-features = false, features = ["deflate"] }
