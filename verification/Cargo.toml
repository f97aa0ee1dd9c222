[package]
name = "keyed_stats"
version = "0.1.0"
edition = "2021"
publish = false

[dependencies]
atoi = "2"
clap = { version = "4", features = ["derive"] }
memmap2 = "0.9"
