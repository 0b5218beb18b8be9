[package]
name = "cli_test"
version = "0.1.0"
edition = "2021"
publish = false

[dependencies]
shlex = "*"
structopt = "*"
tempdir = "*"
