[package]
name = "systemd_unit"
version = "0.1.0"
edition = "2021"
publish = false

[dependencies]
ordered-multimap = "*"
