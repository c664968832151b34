[package]
name = "call_stack"
version = "0.1.0"
edition = "2021"
publish = false

[dependencies]
anyhow = "1"
ar = "*"
clap = { version = "4", features = ["derive"] }
env_logger = "*"
log = "0.4"
petgraph = "0.6"
rustc-demangle = "0.1"
stack-sizes = "*"
xmas-elf = "*"
