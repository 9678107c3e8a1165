[package]
name = "drefs"
version = "0.1.0"
edition = "2021"
publish = false

[dependencies]
regex = "1"
flate2 = "1"
tree-sitter = "*"
tree-sitter-python = "*"
anyhow = "1"
clap = { version = "4", features = ["derive"] }
rayon = "1"
ignore = "0.4"
serde = { version = "1", features = ["derive"] }
serde_json = "1"
toml = "*"
ureq = "*"
lsp-server = "*"
lsp-types = "*"
