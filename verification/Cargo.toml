[package]
name = "sessionman"
version = "0.1.0"
edition = "2021"
publish = false

[dependencies]
acl-rs = "=0.1.1"
nix = { version = "=0.26.4", features = ["user", "inotify"] }
rustbus = "=0.19.3"
