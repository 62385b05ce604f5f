[package]
name = "llmaker"
version = "0.0.1"
edition = "2021"

[dependencies]
clap = "2.33"
