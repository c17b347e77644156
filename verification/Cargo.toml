[package]
name = "fractal_toy"
version = "0.1.0"
edition = "2021"
publish = false

[dependencies]
num_cpus = "1.13"
crossbeam-channel = "0.5"
cgmath = "0.18"
png = "0.17"
