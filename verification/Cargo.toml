[package]
name = "puddlejumper"
version = "0.1.0"
edition = "2021"
publish = false

[dependencies]
imara-diff = "*"
tree-sitter = "*"
serde_json = "*"
