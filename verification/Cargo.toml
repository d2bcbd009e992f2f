[package]
name = "polyseme"
version = "0.1.0"
edition = "2021"
publish = false

[dependencies]
base32 = "0.4"
base64 = "0.13"
ring = "0.16"
clap = "2"
trust-dns-resolver = "0.20"
