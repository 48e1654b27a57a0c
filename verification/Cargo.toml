[package]
name = "jiebars"
version = "0.1.0"
edition = "2021"
publish = false

[dependencies]
regex = "1"
thiserror = "1"
memory-stats = "1"
