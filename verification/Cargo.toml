[package]
name = "playfs"
version = "0.1.0"
edition = "2021"
publish = false

[dependencies]
rusqlite = { version = "*", features = ["bundled"] }
clap = "*"
fuse_mt = "*"
libc = "*"
log = "*"
simplelog = "*"
time = "*"
