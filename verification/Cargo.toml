[package]
name = "sidecraft"
version = "0.1.0"
edition = "2021"
publish = false

[dependencies]
glam = "*"
postcard = { version = "1", features = ["alloc"] }
rand = "*"
serde = { version = "1", features = ["derive"] }
tempfile = "3"
zstd = "*"
