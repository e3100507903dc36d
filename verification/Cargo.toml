[package]
name = "wg_device"
version = "0.1.0"
edition = "2021"
publish = false

[dependencies]
x25519-dalek = { version = "2", features = ["static_secrets"] }
libc = "0.2"
nix = { version = "*", features = ["socket", "uio", "net"] }
log = "0.4"
tracing = "0.1"
anyhow = "1"
eyre = "*"
