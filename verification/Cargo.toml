[package]
name = "rendr"
version = "0.1.0"
edition = "2021"
publish = false

[dependencies]
mustache = "0.9"
glob = "0.3"
clap = "2"
serde = { version = "1", features = ["derive"] }
serde_yaml = "0.8"
thiserror = "1"
anyhow = "1"
log = "0.4"
env_logger = "0.8"
walkdir = "2"
tempdir = "0.3"
pathdiff = "*"
git2 = "*"
text_io = "*"
rpassword = "5"
notify = "4"
