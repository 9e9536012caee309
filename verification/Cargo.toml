[package]
name = "toktkn"
version = "0.1.0"
edition = "2021"
publish = false

[dependencies]
rustc-hash = "2"
serde = { version = "1", features = ["derive"] }
serde_json = "1"
pyo3 = "*"

[dev-dependencies]
fake = "*"
