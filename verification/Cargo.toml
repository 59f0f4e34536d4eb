[package]
name = "dedup"
version = "0.1.0"
edition = "2021"
publish = false

[dependencies]
memchr = "2"
seahash = "4"
fxhash = "0.2"
clap = "2"
memmap = "0.7"
rayon = "1"
tempfile = "3"
