[package]
name = "lupdate_core"
version = "0.1.0"
edition = "2021"
publish = false

[dependencies]
assembly-pack = { version = "=0.5.2", features = ["md5sum", "sd0", "pk", "pki", "pki-gen-txt", "manifest"] }
globset = "=0.4.20"
argh = "*"
color-eyre = "*"
env_logger = "*"
log = "*"
serde = { version = "*", features = ["derive"] }
toml = "*"
indexmap = { version = "*", features = ["serde"] }
