[package]
name = "vcd2v"
version = "0.1.0"
edition = "2021"
publish = false

[dependencies]
vcd = "0.6"
clap = "2"
