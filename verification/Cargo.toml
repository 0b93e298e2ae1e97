[package]
name = "pstree"
version = "0.1.0"
edition = "2021"
publish = false

[dependencies]
ptree = "*"
clap = { version = "*", features = ["derive"] }
