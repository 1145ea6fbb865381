[package]
name = "directory_capture"
version = "0.1.0"
edition = "2021"
publish = false

[dependencies]
cast = "0.3"
clap = "2"
lru = { version = "0.7", default-features = false }
rusqlite = "*"
walkdir = "2"
