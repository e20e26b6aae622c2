[package]
name = "editor_core"
version = "0.1.0"
edition = "2021"
publish = false

[dependencies]
slotmap = "=1.1.1"
tree-sitter = "=0.20.10"
ropey = "=1.6.1"
serde = { version = "=1.0.229", features = ["derive"] }
lsp-types = "=0.94.1"
anyhow = "=1.0.104"

[dev-dependencies]
tree-sitter-rust = "=0.20.4"
tree-sitter-html = "=0.20.0"
tree-sitter-javascript = "=0.20.4"
