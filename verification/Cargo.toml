[package]
name = "pgrx_migrate"
version = "0.1.0"
edition = "2021"
publish = false

[dependencies]
cargo_toml = "0.22"
clap = { version = "4", features = ["derive"] }
clap-cargo = "*"
eyre = "0.6"
owo-colors = "4"
regex = "1"
semver = "1"
serde = { version = "1", features = ["derive"] }
serde_json = "1"
tracing = "0.1"
