[package]
name = "weggli_search"
version = "0.1.0"
edition = "2021"
publish = false

[dependencies]
clap = "=2.34.0"
colored = "=2.2.0"
log = "=0.4.35"
nix = "=0.22.3"
rayon = "=1.12.0"
regex = "=1.13.1"
simplelog = "=0.10.2"
tree-sitter = "=0.20.10"
walkdir = "=2.5.0"
weggli = "=0.2.4"
