[package]
name = "foam"
version = "0.1.0"
edition = "2021"
publish = false

[dependencies]
wide = "0.7"
itertools = "0.13"
fastrand = "2"
enum_dispatch = "0.3"
