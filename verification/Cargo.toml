[package]
name = "highlighter"
version = "0.1.0"
edition = "2021"
publish = false

[dependencies]
hyper = "=0.14.32"
serde = { version = "1", features = ["derive"] }
serde_derive = "1"
serde_json = "1"
tokio = { version = "1", features = ["macros", "rt-multi-thread"] }
tree-sitter = "=0.20.10"
tree-sitter-rust = "=0.20.4"
vercel_runtime = "=1.0.2"
