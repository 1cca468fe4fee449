[package]
name = "dedup"
version = "0.1.0"
edition = "2021"
publish = false

[dependencies]
clap = { version = "=4.6.7", features = ["derive"] }
itertools = "=0.15.0"
rayon = "=1.12.0"
seahash = "=4.1.0"
walkdir = "=2.5.0"
