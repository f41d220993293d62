[package]
name = "quire_code_rs"
version = "0.1.0"
edition = "2021"
publish = false

[dependencies]
tree-sitter = "=0.25.10"
tree-sitter-rust = "=0.24.2"
tree-sitter-typescript = "=0.23.2"
tree-sitter-python = "=0.25.0"
regex = "=1.13.1"
sha2 = "=0.10.9"
serde = { version = "=1.0.229", features = ["derive"] }
serde_json = "=1.0.154"
thiserror = "=2.0.21"
jsonschema = { version = "=0.17.1", default-features = false, features = ["draft202012"] }

[dev-dependencies]
serde_json = "=1.0.154"
