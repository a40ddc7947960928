[package]
name = "kitcat"
version = "0.1.0"
edition = "2021"
publish = false

[dependencies]
regex = "*"
rust-ini = "*"
walkdir = "*"
log = "*"
stderrlog = "*"
