[package]
name = "fast_ebook"
version = "0.1.0"
edition = "2021"
publish = false

[dependencies]
roxmltree = "0.20"
zip = { version = "2", default-features = false, features = ["deflate"] }
rayon = "1"
clap = { version = "4", features = ["derive"] }
serde_json = "1"
pyo3 = "0.23"
