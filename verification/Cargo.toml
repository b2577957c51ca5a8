[package]
name = "epigram"
version = "0.1.0"
edition = "2021"
publish = false

[dependencies]
rand = "=0.10.3"
toml = "=1.1.6"
clap = { version = "=4.6.7", features = ["derive"] }
clio = { version = "=0.3.5", features = ["clap-parse"] }
