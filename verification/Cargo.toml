[package]
name = "pngoptim"
version = "0.1.0"
edition = "2021"
publish = false

[dependencies]
png = "0.18"
crc32fast = "1"
zlib-rs = "*"
rayon = "1"
image = { version = "0.25", default-features = false, features = ["png"] }
lcms2 = "6"
clap = { version = "4", features = ["derive"] }
