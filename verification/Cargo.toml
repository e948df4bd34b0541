[package]
name = "flake_input_modifier"
version = "0.1.0"
edition = "2021"
publish = false

[dependencies]
rnix = "0.11"
rowan = "0.15"
clap = "4"
