[package]
name = "hier_config"
version = "0.1.0"
edition = "2021"
publish = false

[dependencies]
serde_yaml = "*"
walkdir = "*"
anyhow = "*"
