[package]
name = "skref"
version = "0.1.0"
edition = "2021"
publish = false

[dependencies]
serde_yaml = "0.9"
serde_json = { version = "1", features = ["preserve_order"] }
unicode-normalization = "0.1"
clap = { version = "4", features = ["derive"] }
