[package]
name = "washtank"
version = "0.1.0"
edition = "2021"
publish = false

[dependencies]
ropey = "*"
smallvec = "*"
anyhow = "*"
thiserror = "*"
clap = { version = "*", features = ["derive"] }
crossterm = { version = "*", features = ["event-stream"] }
tokio = { version = "*", features = ["full"] }
tokio-stream = "*"
futures = "*"
serde = { version = "*", features = ["derive"] }
serde_json = "*"
lsp-types = "*"
tree-sitter = "*"
tree-sitter-rust = "*"
derive_builder = "*"
ouroboros = "*"
tracing = "*"
smol_str = "*"
