[package]
name = "rustc-auto-publish"
version = "0.1.0"
edition = "2021"
publish = false

[dependencies]
semver = { version = "1", features = ["serde"] }
toml = "0.5"
serde = { version = "1", features = ["derive"] }
serde_json = "1"
curl = "0.4"
flate2 = "1"
tar = "0.4"
tempdir = "0.3"
