[package]
name = "agdatex"
version = "0.1.0"
edition = "2021"
publish = false

[dependencies]
ariadne = "0.5"
base64 = "0.22"
clap = { version = "4", features = ["derive"] }
color-eyre = "0.6"
fs_at = "0.2"
memchr = "2"
nix = "0.29"
sha2 = "0.10"
tempdir = "0.3"
