[package]
name = "cargo_doc_docusaurus"
version = "0.1.0"
edition = "2021"
publish = false

[dependencies]
anyhow = "*"
clap = { version = "*", features = ["derive"] }
rustdoc-types = "*"
serde_json = "*"
