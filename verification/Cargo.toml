[package]
name = "git-sprout"
version = "0.1.0"
edition = "2021"
publish = false

[dependencies]
gix-hash = { version = "=0.28.1", features = ["sha1", "sha256"] }
gix-index = { version = "=0.58.0", features = ["sha1", "sha256"] }
libc = "=0.2.191"
reflink-copy = "=0.1.32"
serde_json = "=1.0.154"
