[package]
name = "typst_diff"
version = "0.1.0"
edition = "2021"
publish = false

[dependencies]
similar = "2"
anyhow = "1"
rustc-hash = "2"
serde = { version = "1", features = ["derive"] }
serde_json = "1"
serde_yaml = "0.9"
typst = "0.14"
typst-pdf = "0.14"
