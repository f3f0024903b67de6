[package]
name = "medifs"
version = "0.1.0"
edition = "2021"
publish = false

[dependencies]
clap = "2"
fuse = "0.3"
fuse_mt = "0.4"
libc = "0.2"
mime = "0.3"
mime_guess = "2"
regex = "1"
rexiv2 = "*"
time = "0.1"
walkdir = "2"
