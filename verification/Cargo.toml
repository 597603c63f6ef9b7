[package]
name = "n_puzzle"
version = "0.1.0"
edition = "2021"

[dependencies]
clap = "2"
structopt = "0.3"
