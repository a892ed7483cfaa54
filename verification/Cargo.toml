[package]
name = "pqcat"
version = "0.1.0"
edition = "2021"
publish = false

[dependencies]
rand = "*"
itertools = "*"
ndarray = "*"
clap = { version = "*", features = ["derive"] }
csv = "*"
regex = "*"
sysinfo = "*"
memory-stats = "*"
