[package]
name = "color_quantizer"
version = "0.1.0"
edition = "2021"
publish = false

[dependencies]
lru = { version = "=0.18.5", default-features = false }
rand = "=0.10.3"
image = "=0.25.10"
anyhow = "=1.0.104"
rayon = "=1.12.0"
