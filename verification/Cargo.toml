[package]
name = "srgn"
version = "0.1.0"
edition = "2021"
publish = false

[dependencies]
anyhow = "=1.0.104"
clap = { version = "=4.6.7", features = ["derive"] }
clap_complete = "4"
colored = "=3.1.1"
decompound = "=0.3.0"
env_logger = "=0.11.11"
fancy-regex = "=0.20.0"
fst = "=0.4.7"
glob = "*"
grep-cli = "*"
ignore = "*"
log = "=0.4.35"
pathdiff = "*"
unescape = "=0.1.0"
unicode_categories = "=0.1.1"
unicode-normalization = "=0.1.26"
unicode_titlecase = "=2.5.0"
walkdir = "=2.5.0"
