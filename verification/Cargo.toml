[package]
name = "dnssd"
version = "0.1.0"
edition = "2021"
publish = false

[dependencies]
clap = { version = "=4.6.7", features = ["derive"] }
default-net = "=0.22.0"
env_logger = "=0.11.11"
log = "=0.4.34"
socket2 = { version = "=0.6.5", features = ["all"] }
