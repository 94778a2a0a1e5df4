[package]
name = "crossword"
version = "0.1.0"
edition = "2021"
publish = false

[dependencies]
priority-queue = "=2.7.0"
ncurses = "=5.101.0"
