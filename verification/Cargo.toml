[package]
name = "pilota"
version = "0.1.0"
edition = "2021"
publish = false

[dependencies]
anyhow = "1"
bytes = "1"
faststr = "*"
itertools = "*"
linkedbytes = "*"
rayon = "1"
rustc-hash = "*"
toml = "*"
