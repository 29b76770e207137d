[package]
name = "lattice"
version = "0.1.0"
edition = "2021"
publish = false

[dependencies]
anyhow = "1"
lsp-server = "0.7"
serde = { version = "1", features = ["derive"] }
tracing = "0.1"
