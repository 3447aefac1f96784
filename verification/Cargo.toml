[package]
name = "lllr"
version = "0.1.0"
edition = "2021"
publish = false

[dependencies]
clap = "4"
indexmap = "2"
regex = "1"
toml = "0.8"
