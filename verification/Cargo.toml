[package]
name = "treehash"
version = "0.1.0"
edition = "2021"
publish = false

[dependencies]
xxhash-rust = { version = "*", features = ["xxh3"] }
clap = { version = "*", features = ["derive"] }
dirs = "*"
walkdir = "*"
