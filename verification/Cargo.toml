[package]
name = "guardsync"
version = "0.1.0"
edition = "2021"
publish = false

[dependencies]
lazy_static = "*"
log = "*"
notify-future = "*"
