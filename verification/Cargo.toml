[package]
name = "fastloan"
version = "0.1.0"
edition = "2021"
publish = false

[dependencies]
multiversx-sc = "=0.54.6"
