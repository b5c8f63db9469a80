[package]
name = "storm"
version = "0.1.0"
edition = "2021"
publish = false

[dependencies]
clap = "2"
lazy_static = "1"
nix = "0.17"
phf = { version = "0.8", features = ["macros"] }
quick-error = "1"
serde = { version = "1", features = ["derive"] }
toml = "0.5"
