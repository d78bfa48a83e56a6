[package]
name = "astra-sandbox"
version = "0.1.0"
edition = "2021"
publish = false

[dependencies]
tree-sitter = "*"
tree-sitter-bash = "*"
