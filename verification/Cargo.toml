[package]
name = "skat_blend"
version = "0.1.0"
edition = "2021"
publish = false

[dependencies]
ansi_term = "0.12"
getopts = "0.2"
rand = "0.7"
