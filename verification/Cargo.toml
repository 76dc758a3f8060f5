[package]
name = "task_stack"
version = "0.1.0"
edition = "2021"
publish = false

[dependencies]
ansi_term = "0.12"
clap = { version = "4", features = ["derive"] }
indicatif = "0.17"
