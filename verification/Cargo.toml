[package]
name = "grex"
version = "0.1.0"
edition = "2021"
publish = false

[dependencies]
anyhow = "1"
clap = { version = "4", features = ["derive"] }
libxml = "0.3"
sigpipe = "0.1"
