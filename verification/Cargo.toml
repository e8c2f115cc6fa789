[package]
name = "zwse"
version = "0.1.0"
edition = "2021"
publish = false

[dependencies]
anstyle = "*"
clap = { version = "*", features = ["derive", "cargo"] }
dirs = "*"
lz4_flex = "*"
serde = { version = "*", features = ["derive"] }
serde_json = "*"
thiserror = "*"

[dev-dependencies]
tempfile = "*"
