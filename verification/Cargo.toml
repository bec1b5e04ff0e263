[package]
name = "load_calc"
version = "0.1.0"
edition = "2021"
publish = false

[dependencies]
clap = { version = "=4.6.7", features = ["derive", "env"] }
comfy-table = "=7.2.2"
csv = "=1.4.0"
serde = { version = "=1.0.229", features = ["derive"] }

[dev-dependencies]
regex = "1"
