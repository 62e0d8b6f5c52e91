[package]
name = "bitterasm_lsp"
version = "0.1.0"
edition = "2021"
publish = false

[dependencies]
bitterasm = "=0.3.0-alpha"
tower-lsp = "0.20"
dashmap = "5"
tokio = { version = "1", features = ["rt-multi-thread", "macros", "io-std"] }
