[package]
name = "egui-wasm-shape-lab"
version = "0.1.0"
edition = "2021"
publish = false

[dependencies]
egui = { version = "0.36.2", default-features = false }
