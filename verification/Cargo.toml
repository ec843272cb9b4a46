[package]
name = "check_deprule"
version = "0.1.0"
edition = "2021"
publish = false

[dependencies]
anyhow = "1"
cargo_metadata = "=0.19.2"
colored = "=3.1.1"
petgraph = "=0.8.3"
semver = "=1.0.28"
serde = { version = "1", features = ["derive"] }
serde_json = "1"
toml = "0.8"
