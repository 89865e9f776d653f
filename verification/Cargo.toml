[package]
name = "everestrs_build"
version = "0.1.0"
edition = "2021"
publish = false

[dependencies]
anyhow = "*"
argh = "*"
convert_case = "*"
minijinja = "*"
serde = { version = "*", features = ["derive"] }
serde_yaml = "*"
