[package]
name = "transformer_gpu"
version = "0.1.0"
edition = "2021"
publish = false

[dependencies]
wgpu = "*"
bytemuck = "1"
pollster = "*"
rand = "*"
