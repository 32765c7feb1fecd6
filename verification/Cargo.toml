[package]
name = "borrow_check"
version = "0.1.0"
edition = "2021"
publish = false

[dependencies]
fxhash = "0.2"
structopt = "0.2"
clap = "2"
failure = "0.1"
