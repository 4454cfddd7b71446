[package]
name = "cf_ddns"
version = "0.1.0"
edition = "2021"
publish = false

[dependencies]
config = "*"
dirs = "*"
globset = "*"
serde = { version = "*", features = ["derive"] }
serde_json = "*"
toml = "*"
ureq = { version = "*", features = ["json"] }
