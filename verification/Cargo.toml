[package]
name = "pr-tracker"
version = "0.1.0"
edition = "2021"
publish = false

[dependencies]
askama = "*"
once_cell = "1"
regex = "1"
