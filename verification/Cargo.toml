[package]
name = "lister"
version = "0.2.0"
edition = "2021"
publish = false

[dependencies]
clap = "2.33"
jwalk = "0.4"
num_cpus = "1"
