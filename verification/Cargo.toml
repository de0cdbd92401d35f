[package]
name = "first_principles"
version = "0.1.0"
edition = "2021"
publish = false

[dependencies]
wgpu = "*"
pollster = "*"
bytemuck = "*"
