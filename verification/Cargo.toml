[package]
name = "anime_dupe_finder"
version = "0.1.0"
edition = "2021"
publish = false

[dependencies]
clap = "*"
env_logger = "*"
glob = "*"
log = "*"
