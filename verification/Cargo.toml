[package]
name = "git_file_diff"
version = "0.1.0"
edition = "2021"
publish = false

[dependencies]
easy-cast = "=0.5.2"
git2 = { version = "=0.20.4", default-features = false }
serde = { version = "=1.0.229", features = ["derive"] }
similar = "=2.7.0"
