[package]
name = "helios_build"
version = "0.1.0"
edition = "2021"
publish = false

[dependencies]
anyhow = "*"
getopts = "*"
serde = { version = "*", features = ["derive"] }
serde_json = "*"
slog = "*"
slog-term = "*"
toml = "*"
