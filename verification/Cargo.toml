[package]
name = "tsreduce"
version = "0.1.0"
edition = "2021"
publish = false

[dependencies]
anyhow = "1"
crossbeam-channel = "0.5"
ctrlc = "3"
fs_extra = "1"
indicatif = "0.17"
rand = "0.8"
structopt = "0.3"
tempfile = "3"
tracing = "0.1"
tracing-subscriber = { version = "0.3", features = ["env-filter", "fmt"] }
tree-sitter = "0.20"
tree-sitter-rust = "0.20"
walkdir = "2"
