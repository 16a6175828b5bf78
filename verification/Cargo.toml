[package]
name = "chess_sampler"
version = "0.1.0"
edition = "2021"
publish = false

[dependencies]
rand = "0.8"
futures = "0.1"
futures-cpupool = "0.1"
time = "0.3"
