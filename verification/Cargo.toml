[package]
name = "cpu_path_tracing"
version = "0.1.0"
edition = "2021"
publish = false

[dependencies]
glam = "*"
exr = "*"
winit = "*"
softbuffer = "*"
