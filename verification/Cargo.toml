[package]
name = "repcat"
version = "0.1.0"
edition = "2021"
publish = false

[dependencies]
clap = { version = "*", features = ["derive"] }
multiqueue = "*"
num_cpus = "*"
page_size = "*"
tqdm = "*"
