[package]
name = "minidb_engine"
version = "0.1.0"
edition = "2021"
publish = false

[dependencies]
rand = "*"
clap = { version = "*", features = ["derive"] }
rustyline = "*"
shell-words = "*"
