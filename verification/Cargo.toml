[package]
name = "nt-list"
version = "0.1.0"
edition = "2021"
publish = false

[dependencies]
moveit = "0.5"
