[package]
name = "rit"
version = "0.1.0"
edition = "2021"
publish = false

[dependencies]
anyhow = "1"
clap = { version = "4", features = ["derive"] }
flate2 = "1"
glob = "0.3"
indexmap = "2"
rust-ini = "*"
sha1 = "0.10"
walkdir = "2"
