[package]
name = "ips_patch"
version = "0.1.0"
edition = "2021"
publish = false

[dependencies]
eyre = "*"
structopt = "*"
thiserror = "*"
