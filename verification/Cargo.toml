[package]
name = "lisp0"
version = "0.1.0"
edition = "2021"
publish = false

[dependencies]
anyhow = "*"
char_reader = "*"
clap = { version = "*", features = ["derive"] }
either = "*"
