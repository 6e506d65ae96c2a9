[package]
name = "css_lens"
version = "0.9.0"
edition = "2021"
publish = false

[dependencies]
lsp-server = "0.7"
lsp-types = "0.95"
regex = "1"
serde_json = "1"
walkdir = "2"
zed_extension_api = "*"
