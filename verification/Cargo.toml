[package]
name = "gpu_hosts"
version = "0.1.0"
edition = "2021"
publish = false

[dependencies]
csv = "=1.4.0"
regex = "=1.13.1"
prettytable-rs = { version = "=0.10.0", default-features = false }
