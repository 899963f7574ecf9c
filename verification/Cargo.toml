[package]
name = "addon_parse"
version = "0.1.0"
edition = "2021"
publish = false

[dependencies]
async-std = "=1.13.2"
fancy-regex = "=0.14.0"
glob = "=0.3.4"
lazy_static = "=1.5.1"
rayon = "=1.12.0"
regex = "=1.13.1"
serde = "=1.0.229"
serde_derive = "=1.0.229"
