[package]
name = "crate_search"
version = "0.1.0"
edition = "2021"
publish = false

[dependencies]
git2 = { version = "*", default-features = false }
which = "*"
serde = { version = "*", features = ["derive"] }
serde_json = "*"
