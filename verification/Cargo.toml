[package]
name = "vector_store"
version = "0.1.0"
edition = "2021"
publish = false

[dependencies]
tree-sitter = "0.20"
tree-sitter-rust = "0.20"

[dev-dependencies]
rand = "0.8"
unindent = "0.1"
