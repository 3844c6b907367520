[package]
name = "csv2sfz"
version = "0.1.0"
edition = "2021"
publish = false

[dependencies]
csv = "=1.4.0"
globset = "=0.4.20"
mexprp = { version = "=0.3.1", default-features = false }
clap = "=4.6.7"
