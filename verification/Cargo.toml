[package]
name = "minesweeper"
version = "0.1.0"
edition = "2021"
publish = false

[dependencies]
rand = "0.8"
ansi_term = "0.12"
itertools = "0.10"
