[package]
name = "spec_check"
version = "0.1.0"
edition = "2021"
publish = false

[dependencies]
anyhow = "1"
clap = { version = "4", features = ["derive"] }
proc-macro2 = "1"
pulldown-cmark = { version = "0.9", default-features = false }
quote = "1"
serde = { version = "1", features = ["derive"] }
syn = { version = "2", features = ["full"] }
toml = "0.8"
walkdir = "2"
