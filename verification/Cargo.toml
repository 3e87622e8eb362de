[package]
name = "color_convert"
version = "0.1.0"
edition = "2021"
publish = false

[dependencies]
archmage = "=0.9.30"
