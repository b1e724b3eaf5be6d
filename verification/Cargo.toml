[package]
name = "google_load_parser"
version = "1.1.0"
edition = "2021"
publish = false

[dependencies]
clap = "2"
csv = "1"
libflate = "*"
log = "0.4"
pretty_env_logger = "*"
