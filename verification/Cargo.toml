[package]
name = "grammar"
version = "0.1.0"
edition = "2021"
publish = false

[dependencies]
rand = "0.7"
serde = { version = "1", features = ["derive"] }
serde_json = "1"
prettytable-rs = "0.10"
clap = "2"
