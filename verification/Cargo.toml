[package]
name = "folder_check"
version = "0.1.0"
edition = "2021"
publish = false

[dependencies]
chrono = "*"
clap = { version = "*", features = ["derive"] }
md-5 = "*"
num_cpus = "*"
threadpool = "*"
