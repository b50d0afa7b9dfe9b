[package]
name = "codevis"
version = "0.1.0"
edition = "2021"
publish = false

[dependencies]
syntect = { version = "5", default-features = false, features = ["default-fancy"] }
unifont-bitmap = "*"
image = { version = "0.24", default-features = false, features = ["png"] }
clap = { version = "4", features = ["derive"] }
flume = "*"
num_cpus = "*"
open = "*"
signal-hook = "*"
