[package]
name = "schrom"
version = "0.1.0"
edition = "2021"
publish = false

[dependencies]
bio = "=4.2.2"
clap = "=2.34.0"
crossbeam = "=0.8.5"
indicatif = "=0.18.6"
log = "=0.4.34"
pretty_env_logger = "=0.5.0"
rust-htslib = { version = "=1.0.2", default-features = false }
