[package]
name = "cindex"
version = "0.1.0"
edition = "2021"
publish = false

[dependencies]
indexmap = "=2.14.2"
clap = { version = "=4.6.7", features = ["derive"] }
anyhow = "=1.0.104"
unicode-segmentation = "=1.13.3"
