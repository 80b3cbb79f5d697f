[package]
name = "opencc_cli"
version = "0.1.0"
edition = "2021"
publish = false

[dependencies]
ferrous-opencc = { version = "=0.4.0", features = ["full"] }
tempfile = "=3.27.0"
clap = { version = "=4.6.7", features = ["derive"] }
