[package]
name = "bitpack"
version = "0.1.0"
edition = "2021"
publish = false

[dependencies]
arrow = { version = "53.4", default-features = false }
arrow-array = "53.4"
arrow-schema = "53.4"
bytes = "1"
futures = "0.3"
log = "0.4"
snafu = "0.7"
