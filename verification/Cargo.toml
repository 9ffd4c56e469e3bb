[package]
name = "oa_coder"
version = "0.1.0"
edition = "2021"
publish = false

[dependencies]
regex = "*"
anyhow = "*"
serde = { version = "*", features = ["derive"] }
serde_json = "*"
similar = "*"
tempfile = "*"
thiserror = "*"
which = "*"
globset = "*"
