[package]
name = "rinha_gpu_bruteforce"
version = "0.1.0"
edition = "2021"
publish = false

[dependencies]
anyhow = "1"
bytemuck = { version = "1", features = ["derive", "extern_crate_alloc"] }
clap = { version = "4", features = ["derive"] }
flate2 = "1"
pollster = "0.3"
serde = { version = "1", features = ["derive"] }
serde_json = "1"
wgpu = "0.20"
