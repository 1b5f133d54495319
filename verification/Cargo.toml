[package]
name = "asset_ident"
version = "0.1.0"
edition = "2021"
publish = false

[dependencies]
anyhow = "1"
inventory = "0.3"
once_cell = "1"
regex = "1"
serde = { version = "1", features = ["derive"] }
