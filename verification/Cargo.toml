[package]
name = "tinylm"
version = "0.1.0"
edition = "2021"
publish = false

[dependencies]
bincode = "1.3"
clap = { version = "4", features = ["derive"] }
rand = "0.9"
rayon = "1"
serde = { version = "1", features = ["derive"] }
