[package]
name = "extent_overlap"
version = "0.1.0"
edition = "2021"
publish = false

[dependencies]
anyhow = "1"
clap = { version = "4", features = ["derive"] }
fiemap = "*"
humansize = "2"
