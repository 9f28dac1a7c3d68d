[package]
name = "minikanren_1bit_chirho"
version = "0.1.0"
edition = "2021"
publish = false

[dependencies]
egg = "0.9"
wgpu = "0.19"
pollster = "0.3"
bytemuck = { version = "1", features = ["derive"] }
memmap2 = "0.9"
log = "0.4"
