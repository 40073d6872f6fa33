[package]
name = "gitfugue"
version = "0.1.0"
edition = "2021"
publish = false

[dependencies]
anyhow = "1"
clap = { version = "4", features = ["derive"] }
midly = "0.5"
rodio = "*"
rustysynth = "1"
toml = "*"
tree-sitter = "*"
tree-sitter-javascript = "*"
tree-sitter-python = "*"
tree-sitter-rust = "*"
