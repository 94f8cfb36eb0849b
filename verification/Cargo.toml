[package]
name = "repo_commit"
version = "0.1.0"
edition = "2021"
publish = false

[dependencies]
regex = "*"
serde = { version = "*", features = ["derive"] }
serde_cbor = "*"
hostname = "*"
tempfile = "*"
rust-crypto = "*"
xdiff = "*"

[dev-dependencies]
rand = "*"
rand_chacha = "*"
