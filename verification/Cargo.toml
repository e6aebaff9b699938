[package]
name = "adrenaline"
version = "0.1.0"
edition = "2021"
publish = false

[dependencies]
chrono = "*"
log = "*"
num_cpus = "*"
socket2 = { version = "*", features = ["all"] }
tokio = { version = "*", features = ["net", "rt-multi-thread", "macros"] }
