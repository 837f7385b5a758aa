[package]
name = "mozsearch_format"
version = "0.1.0"
edition = "2021"
publish = false

[dependencies]
chrono = "0.2"
git2 = { version = "0.13", default-features = false }
rustc-serialize = "0.3"
