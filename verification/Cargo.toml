[package]
name = "vgc"
version = "0.1.0"
edition = "2021"
publish = false

[dependencies]
anyhow = "1"
float-cmp = "*"
log = "0.4"
postcard = { version = "1", features = ["alloc"] }
roots = "*"
serde = { version = "1", features = ["derive"] }
