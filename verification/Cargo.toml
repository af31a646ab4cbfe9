[package]
name = "nadi_tasks"
version = "0.1.0"
edition = "2021"
publish = false

[dependencies]
anyhow = "=1.0.104"
clap = { version = "=4.6.7", features = ["derive"] }
nadi_core = { version = "=0.8.1", features = ["parser"] }
