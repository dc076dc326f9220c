[package]
name = "who_lang_java"
version = "0.1.0"
edition = "2021"
publish = false

[dependencies]
tree-sitter = "0.24"
tree-sitter-java = "0.23"
anyhow = "1"
