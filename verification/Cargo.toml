[package]
name = "shdoku"
version = "0.1.0"
edition = "2021"
publish = false

[dependencies]
rand = "0.8"
clap = "4"
crossterm = "0.28"
