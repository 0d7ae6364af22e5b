[package]
name = "kindle_rust"
version = "0.1.0"
edition = "2021"
publish = false

[dependencies]
image = { version = "=0.25.10", default-features = false, features = ["bmp", "gif", "hdr", "ico", "jpeg", "png", "pnm", "tga", "tiff", "webp"] }
libc = "=0.2.191"
memmap = "=0.7.0"
chrono = "=0.4.45"
