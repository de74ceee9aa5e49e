[package]
name = "typst_tokens"
version = "0.1.0"
edition = "2021"
publish = false

[dependencies]
tokio = { version = "=1.53.2", features = ["full"] }
tower-lsp = "=0.20.0"
typst-syntax = "=0.15.1"
