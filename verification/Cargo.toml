[package]
name = "allmux"
version = "0.1.0"
edition = "2021"
publish = false

[dependencies]
anyhow = "1"
crossterm = "0.28"
dirs = "5"
fuzzy-matcher = "0.3"
ratatui = "0.29"
