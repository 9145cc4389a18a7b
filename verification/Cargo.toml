[package]
name = "css_audit"
version = "0.1.0"
edition = "2021"
publish = false

[dependencies]
lightningcss = "1.0.0-alpha.72"
xxhash-rust = { version = "*", features = ["xxh3"] }

[dev-dependencies]
serde_json = "*"
