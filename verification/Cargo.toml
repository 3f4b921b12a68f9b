[package]
name = "quill"
version = "0.1.0"
edition = "2021"
publish = false

[dependencies]
itertools = "*"
clap = { version = "*", features = ["derive"] }
serde = { version = "*", features = ["derive"] }
serde_json = "*"
thiserror = "*"
