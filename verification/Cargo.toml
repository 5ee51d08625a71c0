[package]
name = "chiptool"
version = "0.1.0"
edition = "2021"
publish = false

[dependencies]
anyhow = "1"
clap = { version = "4", features = ["derive"] }
inflections = "1.1.1"
log = "0.4"
proc-macro2 = "1"
quote = "1"
regex = "1.7"
serde = { version = "1", features = ["derive"] }
serde_yaml = "0.9"
