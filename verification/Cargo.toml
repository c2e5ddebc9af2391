[package]
name = "oram"
version = "0.1.0"
edition = "2021"
publish = false

[dependencies]
subtle = "2"
rand = "0.8"
log = "0.4"
