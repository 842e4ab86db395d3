[package]
name = "gen_mdbook_summary"
version = "0.1.0"
edition = "2021"
publish = false

[dependencies]
anyhow = "1"
clap = { version = "4", features = ["derive"] }
env_logger = "0.11"
ignore = "0.4"
indoc = "2"
log = "0.4"
