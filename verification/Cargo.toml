[package]
name = "lspsync"
version = "0.1.0"
edition = "2021"
publish = false

[dependencies]
tree-sitter = "0.20"
tree-sitter-javascript = "0.20"
tokio = { version = "1", features = ["full"] }
tower-lsp = "0.20"
