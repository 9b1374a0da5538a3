[package]
name = "oma_core"
version = "0.1.0"
edition = "2021"
publish = false

[dependencies]
anyhow = "1"
indexmap = "2"
inquire = "0.7"
thiserror = "1"
