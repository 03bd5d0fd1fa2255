[package]
name = "npuzzle"
version = "0.1.0"
edition = "2021"
publish = false

[dependencies]
ahash = "0.8"
rand = "0.8"
bincode = "1"
clap = { version = "4", features = ["derive"] }
clap-num = "*"
flate2 = "*"
nom = "7"
pancurses = "*"
serde = { version = "*", features = ["derive"] }
