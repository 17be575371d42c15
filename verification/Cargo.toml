[package]
name = "debcargo"
version = "0.1.0"
edition = "2021"
publish = false

[dependencies]
glob = "*"
tar = "*"
flate2 = "*"
tempfile = "*"
filetime = "*"
