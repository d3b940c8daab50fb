[package]
name = "batch_exec"
version = "0.1.0"
edition = "2021"
publish = false

[dependencies]
memchr = "2"
num_cpus = "1"
structopt = "0.3"
