[package]
name = "luaux-lsp"
version = "0.1.1"
edition = "2021"
publish = false

[dependencies]
luaux = "=0.1.3"
serde = { version = "=1.0.229", features = ["derive"] }
serde_json = "=1.0.154"
