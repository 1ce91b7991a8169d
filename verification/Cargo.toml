[package]
name = "fuzzy_ssh"
version = "0.1.0"
edition = "2021"
publish = false

[dependencies]
anyhow = "1"
crossterm = "0.28"
nom = "7"
ratatui = "0.29"
shellexpand = "3"
