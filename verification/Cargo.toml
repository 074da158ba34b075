[package]
name = "pcf"
version = "0.1.0"
edition = "2021"
publish = false

[dependencies]
hex_color = "3"
rayon = "1"
image = { version = "0.25", default-features = false, features = ["png", "jpeg", "gif", "bmp", "ico", "tiff", "webp", "pnm", "qoi", "tga", "hdr", "ff"] }
colored = "2"
crossterm = "0.28"
clearscreen = "*"
kdam = "*"
bincode = "1"
json = "0.12"
ahash = "0.8"
rfd = "*"
