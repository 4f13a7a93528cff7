[package]
name = "subtext"
version = "0.3.0"
edition = "2021"
publish = false

[dependencies]
anyhow = "1"
async-compat = "*"
async-stream = "0.3"
async-utf8-decoder = "*"
futures = "0.3"
log = "0.4"
tendril = "0.4"
tokio = "1"
