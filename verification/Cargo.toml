[package]
name = "flacx"
version = "0.9.0"
edition = "2021"
publish = false

[dependencies]
bitstream-io = "=4.10.0"
clap = { version = "=4.6.7", features = ["derive"] }
terminal_size = "=0.4.4"
unicode-width = "=0.2.3"
walkdir = "=2.5.0"
