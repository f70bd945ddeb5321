[package]
name = "chunkdl"
version = "0.1.0"
edition = "2021"
publish = false

[dependencies]
anyhow = "1"
log = "0.4"
log4rs = "1"
regex = "1"
structopt = "0.3"
ureq = { version = "2", default-features = false }
url = "2"
