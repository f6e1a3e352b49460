[package]
name = "blame_tally"
version = "0.1.0"
edition = "2021"
publish = false

[dependencies]
num-format = "*"
clap = { version = "*", features = ["derive"] }
