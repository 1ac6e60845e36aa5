[package]
name = "juliaup"
version = "0.1.0"
edition = "2021"
publish = false

[dependencies]
anyhow = "*"
console = "*"
dirs = "*"
flate2 = "*"
fs_extra = "*"
indicatif = "*"
itertools = "*"
semver = "*"
serde = { version = "*", features = ["derive"] }
serde_json = "*"
tar = "*"
ureq = "*"
