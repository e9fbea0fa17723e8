[package]
name = "snapocr_shot"
version = "0.1.0"
edition = "2021"
publish = false

[dependencies]
png = "*"
anyhow = "*"
memmap2 = "*"
wayland-client = "*"
wayland-protocols = { version = "*", features = ["client", "staging"] }
smithay-client-toolkit = "*"
