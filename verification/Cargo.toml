[package]
name = "pmmlruntime"
version = "0.1.0"
edition = "2021"
publish = false

[dependencies]
quick-xml = "0.37"
bumpalo = "3"
thiserror = "*"
anyhow = "1"
