[package]
name = "rtk-mcp-server"
version = "0.1.0"
edition = "2021"
publish = false

[dependencies]
blake3 = "1"
globset = "0.4"
regex = "1"
tree-sitter = "0.24"
tree-sitter-rust = "0.23"
tree-sitter-python = "0.23"
tree-sitter-typescript = "0.23"
ignore = "0.4"
rusqlite = { version = "0.32", features = ["bundled"] }
tantivy = "0.22"
serde = { version = "1", features = ["derive"] }
serde_json = "1"
fastembed = { version = "4", default-features = false }
