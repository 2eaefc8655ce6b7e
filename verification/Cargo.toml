[package]
name = "zec"
version = "0.1.0"
edition = "2021"
publish = false

[dependencies]
anyhow = "1"
async-channel = "2"
crossterm = "0.29"
futures = "0.3"
log = "0.4"
nix = { version = "*", features = ["term", "signal"] }
ratatui = "0.30"
semver = "1"
serde = { version = "1", features = ["derive"] }
serde_json = "1"
sha2 = "0.10"
similar = "2"
sysinfo = "*"
unicode-width = "0.2"
zeroize = "1"
