[package]
name = "glorp_syntax"
version = "0.1.0"
edition = "2021"
publish = false

[dependencies]
arc-swap = "=1.9.3"
regex = "=1.13.1"
regex-cursor = "=0.1.5"
ropey = "=1.6.1"
slab = "=0.4.12"
thiserror = "=2.0.21"
tree-house-bindings = { version = "=0.3.2", features = ["ropey", "tree-sitter-language"] }

[dev-dependencies]
tree-sitter-rust = "=0.24.2"
