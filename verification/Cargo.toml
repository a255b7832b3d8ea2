[package]
name = "morty"
version = "0.1.0"
edition = "2021"
publish = false

[dependencies]
anyhow = "*"
chrono = "*"
clap = "*"
log = "*"
pulldown-cmark = "*"
rayon = "*"
serde = { version = "*", features = ["derive"] }
serde_json = "*"
simple_logger = "*"
sv-parser = "*"
