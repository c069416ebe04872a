[package]
name = "geff_core"
version = "0.1.0"
edition = "2021"
publish = false

[dependencies]
serde = { version = "*", features = ["derive"] }
rmp-serde = "*"
nom = "*"
chrono = "*"
anyhow = "*"
thiserror = "*"
