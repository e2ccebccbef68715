[package]
name = "todo_find"
version = "0.1.0"
edition = "2021"
publish = false

[dependencies]
fancy-regex = "=0.19.2"
colored = "=3.1.1"
clap = { version = "=4.6.7", features = ["string"] }
walkdir = "=2.5.0"
