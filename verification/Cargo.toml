[package]
name = "neowatch"
version = "0.1.0"
edition = "2021"
publish = false

[dependencies]
termcolor = "1"
clap = "4"
ctrlc = "3"
libc = "0.2"
