[package]
name = "kewb"
version = "0.1.0"
edition = "2021"
publish = false

[dependencies]
rand = "0.8"
bincode = "2"
clap = { version = "4", features = ["derive"] }
crossterm = "0.27"
spinners = "4"
