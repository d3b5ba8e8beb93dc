[package]
name = "ripx"
version = "0.1.0"
edition = "2021"
publish = false

[dependencies]
memchr = "2"
smallvec = "1"
bumpalo = "3"
memmap2 = "0.9"
rayon = "1"
