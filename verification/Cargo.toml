[package]
name = "sea_lsp"
version = "0.1.0"
edition = "2021"
publish = false

[dependencies]
tree-sitter = "0.25"
walkdir = "2"
tower-lsp = "0.20"
tokio = { version = "1", features = ["full"] }
