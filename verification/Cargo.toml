[package]
name = "prettydiff"
version = "0.1.0"
edition = "2021"
publish = false

[dependencies]
ansi_term = "*"
prettytable-rs = "*"
structopt = "*"
