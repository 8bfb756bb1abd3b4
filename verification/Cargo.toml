[package]
name = "caelum"
version = "0.1.0"
edition = "2021"
publish = false

[dependencies]
varisat = "0.2"
cadical = "*"
z3 = "*"
serde = { version = "1", features = ["derive"] }
serde_json = "1"
clap = { version = "4", features = ["derive"] }
thiserror = "*"
