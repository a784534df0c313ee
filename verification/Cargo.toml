[package]
name = "gdscript_graph"
version = "0.1.0"
edition = "2021"
publish = false

[dependencies]
tree-sitter = "0.25"
tree-sitter-gdscript = "6.1"
