[package]
name = "docx_cleaner"
version = "0.1.0"
edition = "2021"
publish = false

[dependencies]
dashmap = "*"
serde_json = "*"
clap = { version = "*", features = ["derive"] }
docx-rs = "*"
rfd = "*"
