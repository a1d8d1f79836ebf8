[package]
name = "shoko"
version = "0.1.1"
edition = "2021"
publish = false

[dependencies]
aes-gcm = "0.10"
rand = "0.9"
glob = "0.3"
log = "0.4"
env_logger = "0.11"
petgraph = "0.6"
inquire = "0.7"
nix = { version = "0.29", features = ["mman"] }
