[package]
name = "rust_graph"
version = "0.1.0"
edition = "2021"
publish = false

[dependencies]
rand = "0.8"
xml-rs = "*"
substring = "1"
table-extract = "*"
simple_excel_writer = "*"
serde = { version = "1", features = ["derive"] }
serde_json = "1"
anyhow = "1"
