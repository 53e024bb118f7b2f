[package]
name = "rsift_opt_gfx"
version = "0.1.0"
edition = "2021"
publish = false

[dependencies]
bytemuck = "=1.25.2"
lz4_flex = "=0.11.6"
zstd = "=0.13.4"
rayon = "1"
