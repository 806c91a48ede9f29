[package]
name = "git_publish"
version = "0.1.0"
edition = "2021"
publish = false

[dependencies]
anyhow = "1"
git2 = "0.18"
serde = { version = "1", features = ["derive"] }
serde_yaml = "0.9"
