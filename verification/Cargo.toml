[package]
name = "shannon"
version = "0.1.0"
edition = "2021"
publish = false

[dependencies]
clap = { version = "4", features = ["derive"] }
num-traits = "0.2"
textplots = { version = "0.8", default-features = false }
