[package]
name = "mavdac"
version = "0.1.0"
edition = "2021"
publish = false

[dependencies]
fitrs = "*"
glob = "*"
rayon = "*"
serde = { version = "*", features = ["derive"] }
serde_yaml = "*"
