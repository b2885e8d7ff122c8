[package]
name = "rust_cli_quickstart"
version = "0.1.0"
edition = "2021"
publish = false

[dependencies]
dialoguer = "0.10.3"
duct = "0.13.6"
yansi = "0.5.1"
termion = "*"
