[package]
name = "fuzzit"
version = "0.1.0"
edition = "2021"
publish = false

[dependencies]
clap = { version = "4", features = ["derive", "env"] }
color-eyre = "0.6"
dirs = "6"
ratatui = "0.29"
rayon = "1"
