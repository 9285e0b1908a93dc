[package]
name = "divot"
version = "0.1.0"
edition = "2021"
publish = false

[dependencies]
imara-diff = "=0.2.0"
napi = "=3.16.1"
napi-derive = "=3.7.0"
