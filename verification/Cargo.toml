[package]
name = "quickenv"
version = "0.1.0"
edition = "2021"
publish = false

[dependencies]
anyhow = "1"
blake3 = { version = "1", features = ["pure"] }
clap = { version = "4", features = ["derive"] }
console = "*"
ctrlc = "3"
dialoguer = "*"
env_logger = "*"
exec = "0.3"
hex = "0.4"
log = "0.4"
tempfile = "3"
thiserror = "*"
uutils_term_grid = "*"
which = "*"
