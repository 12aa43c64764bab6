[package]
name = "chapter_4"
version = "0.1.0"
edition = "2021"
publish = false

[dependencies]
rapidhash = "*"
memchr = "2"
gxhash = "*"
bytes = "1"
anyhow = "1"
thiserror = "2"
smol = "2"
async-channel = "2"
