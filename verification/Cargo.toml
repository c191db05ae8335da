[package]
name = "mitos_init"
version = "0.10.0"
edition = "2021"
publish = false

[dependencies]
libc = "0.2"
nix = { version = "0.29", features = ["signal", "process", "mount", "fs", "reboot"] }
