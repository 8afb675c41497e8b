[package]
name = "codetype"
version = "0.1.0"
edition = "2021"
publish = false

[dependencies]
anyhow = "=1.0.104"
clap = { version = "=4.6.7", features = ["derive"] }
crossterm = "=0.29.0"
rand = "=0.9.5"
ratatui = "=0.30.2"
tree-sitter = "=0.27.1"
tree-sitter-rust = "=0.24.2"
tree-sitter-swift = "=0.7.4"
tree-sitter-typescript = "=0.23.2"
