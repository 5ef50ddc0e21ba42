[package]
name = "sysy_compiler"
version = "0.1.0"
edition = "2021"
publish = false

[dependencies]
num-bigint = "=0.4.8"
num-traits = "=0.2.19"
clap = { version = "=4.6.7", features = ["derive"] }
