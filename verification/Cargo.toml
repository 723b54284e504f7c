[package]
name = "scip_semantic"
version = "0.1.0"
edition = "2021"
publish = false

[dependencies]
tree-sitter = "=0.20.10"
tree-sitter-go = "=0.20.0"
tree-sitter-rust = "=0.20.4"
scip = "*"
