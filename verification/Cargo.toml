[package]
name = "bearcrypto"
version = "0.1.0"
edition = "2021"
publish = false

[dependencies]
orion = "0.17"
rand = "0.9"
clap = { version = "4", features = ["derive"] }
home = "0.5"
log = "0.4"
log4rs = "1"
