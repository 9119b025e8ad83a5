[package]
name = "epub_index"
version = "0.1.0"
edition = "2021"
publish = false

[dependencies]
base64 = "=0.22.1"
epub = "=2.0.0"
walkdir = "=2.5.0"
