[package]
name = "source_map"
version = "0.1.0"
edition = "2021"
publish = false

[dependencies]
base64 = "*"
codespan-reporting = "*"
lsp-types = "*"
serde = { version = "*", features = ["derive"] }
self-rust-tokenize = "*"
