[package]
name = "tsk"
version = "0.1.0"
edition = "2021"
publish = false

[dependencies]
anyhow = "1"
clap = { version = "4", features = ["derive"] }
ratatui = "*"
simply_colored = "*"

[dev-dependencies]
nom = "8"
