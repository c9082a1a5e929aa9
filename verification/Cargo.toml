[package]
name = "rigpilot"
version = "0.1.0"
edition = "2021"
publish = false

[dependencies]
midly = "*"
midir = "*"
dirs = "*"
quick-xml = { version = "*", features = ["serialize"] }
serde = { version = "1", features = ["derive"] }
serde_json = "1"
