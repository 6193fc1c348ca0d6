[package]
name = "minesweep"
version = "0.1.0"
edition = "2021"
publish = false

[dependencies]
anyhow = "1"
bit-set = "0.5"
ctrlc = "3"
num-traits = "0.2"
rand = "0.8"
ratatui = { version = "0.26", default-features = false, features = ["termion"] }
structopt = "0.3"
termion = "2"
thiserror = "1"
typed-builder = "0.18"
