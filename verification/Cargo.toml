[package]
name = "hwp_linebreak"
version = "0.1.0"
edition = "2021"
publish = false

[dependencies]
svg2pdf = "0.13"
usvg = "0.45"
