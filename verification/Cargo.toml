[package]
name = "ps_memory_reader"
version = "0.1.0"
edition = "2021"
publish = false

[dependencies]
rppal = "=0.14.1"
anyhow = "=1.0.104"
log = "=0.4.34"
clap = "=3.2.25"
env_logger = "=0.9.3"
indicatif = "0.17"
