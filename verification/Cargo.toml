[package]
name = "timers"
version = "0.1.0"
edition = "2021"
publish = false

[dependencies]
chrono = "0.4"
clap = "2"
colored = "2"
csv = "1"
dirs = "5"
term_size = "0.3"
