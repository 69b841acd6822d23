[package]
name = "plutil_rs"
version = "0.1.0"
edition = "2021"
publish = false

[dependencies]
base64 = "0.22"
quick-xml = "0.37"
clap = { version = "4", features = ["derive"] }
thiserror = "2"
