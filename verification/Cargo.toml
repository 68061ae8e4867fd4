[package]
name = "toysh"
version = "0.1.0"
edition = "2021"
publish = false

[dependencies]
regex = "1"
nix = "0.26"
rustyline = "12"
dirs = "5"
