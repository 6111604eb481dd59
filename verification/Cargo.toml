[package]
name = "code_lens"
version = "0.1.0"
edition = "2021"
publish = false

[dependencies]
lsp-types = "=0.94.1"
serde_json = "=1.0.151"
itertools = "=0.15.0"
serde = { version = "=1.0.229", features = ["derive"] }
