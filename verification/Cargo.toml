[package]
name = "rjava"
version = "0.1.0"
edition = "2021"
publish = false

[dependencies]
portable-atomic = "1"
smallvec = "1"
thiserror = "1"
