[package]
name = "wgpu_buffer_allocator"
version = "0.1.0"
edition = "2021"
publish = false

[dependencies]
wgpu = { version = "27", default-features = false, features = ["std"] }
futures-intrusive = "0.5"

[dev-dependencies]
rand = "0.9"
