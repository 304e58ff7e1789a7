[package]
name = "reliable"
version = "1.4.5"
edition = "2021"
publish = false

[dependencies]
log = "0.4"
