[package]
name = "lumiknit_cli_edc"
version = "0.1.0"
edition = "2021"
publish = false

[dependencies]
regex = "1"
serde_json = "1"
serde_yml = "*"
toml = "*"
which = "*"
tempfile = "3"
libc = "0.2"
