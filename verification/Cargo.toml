[package]
name = "pashmina"
version = "0.1.0"
edition = "2021"
publish = false

[dependencies]
anyhow = "1"
bytemuck = { version = "1", features = ["derive"] }
flume = "0.11"
tokio = { version = "1", features = ["macros", "rt-multi-thread"] }
tracing-subscriber = "0.3"
wgpu = "0.20"

[dev-dependencies]
rand = "0.8"
rand_xoshiro = "0.6"
