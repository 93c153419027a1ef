[package]
name = "onebrc_rust"
version = "0.1.0"
edition = "2021"
publish = false

[dependencies]
memchr = "2"
rustc-hash = "2"
memmap2 = "0.9"
clap = { version = "4", features = ["derive"] }
