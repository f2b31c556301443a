[package]
name = "nix-ninja"
version = "0.1.0"
edition = "2021"
publish = false

[dependencies]
anyhow = "=1.0.104"
libc = "=0.2.191"
regex = "=1.13.1"
rustc-hash = "=2.1.3"
serde_json = "=1.0.154"
sha2 = "=0.10.9"
shell-words = "=1.1.1"
walkdir = "=2.5.0"
which = "=8.0.6"
