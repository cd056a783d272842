[package]
name = "m3u_filter"
version = "0.1.0"
edition = "2021"
publish = false

[dependencies]
structopt = "0.3"
clap = "2"
