[package]
name = "picrossh"
version = "0.1.0"
edition = "2021"
publish = false

[dependencies]
rand = "0.8"
clap = { version = "4", features = ["derive"] }
crossterm = "0.28"
ratatui = "0.29"
libc = "0.2"
