[package]
name = "git_subcopy"
version = "0.1.0"
edition = "2021"
publish = false

[dependencies]
anyhow = "*"
base64 = "*"
dirs = "*"
env_logger = "*"
git2 = { version = "*", default-features = false }
log = "*"
structopt = "*"
tempfile = "*"
walkdir = "*"
