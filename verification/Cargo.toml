[package]
name = "linch_core"
version = "0.1.0"
edition = "2021"
publish = false

[dependencies]
regex = "*"
lexical-sort = "*"
clap = "*"
walkdir = "*"
