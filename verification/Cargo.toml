[package]
name = "mcshader_lsp"
version = "0.1.0"
edition = "2021"
publish = false

[dependencies]
petgraph = "=0.5.1"
rust_lsp = "=0.6.0"
serde_json = "=1.0.154"
walkdir = "=2.5.0"
anyhow = "=1.0.104"
chan = "=0.1.23"
path-slash = "=0.1.5"
url = "=2.5.8"
