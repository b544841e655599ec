[package]
name = "whypkg"
version = "0.1.0"
edition = "2021"
publish = false

[dependencies]
chrono = "0.4"
flate2 = "1"
nucleo-matcher = "0.3"
clap = { version = "4", features = ["derive"] }
colored = "*"
crossterm = "*"
ratatui = "*"
libc = "0.2"
