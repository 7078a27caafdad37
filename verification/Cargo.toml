[package]
name = "dep_inspect"
version = "0.1.0"
edition = "2021"
publish = false

[dependencies]
semver = "1"
globset = "0.4"
serde_json = "1"
clap = { version = "4", features = ["derive"] }
glob = "0.3"
ptree = "0.4"
colored = "2"
