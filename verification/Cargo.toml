[package]
name = "medit"
version = "0.1.0"
edition = "2021"
publish = false

[dependencies]
libc = "=0.2.191"
notify = "=8.2.1"
regex = "=1.13.1"
serde_json = "=1.0.154"
tree-sitter = "=0.25.10"

[dev-dependencies]
tree-sitter-go = "=0.23.4"
tree-sitter-json = "0.24"
