[package]
name = "gputrace-bundle"
version = "0.1.1"
edition = "2021"
publish = false

[dependencies]
flate2 = "1"
thiserror = "2"
