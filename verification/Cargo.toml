[package]
name = "bog_engine"
version = "0.1.0"
edition = "2021"
publish = false

[dependencies]
rand = "0.9"
pollster = "0.3"
wgpu = "22"
winit = "0.30"
