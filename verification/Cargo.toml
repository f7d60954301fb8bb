[package]
name = "swarmnet"
version = "0.1.0"
edition = "2021"
publish = false

[dependencies]
regex = "1"
sha1 = "0.10"
hex = "0.4"
rand = "0.8"
serde = { version = "1", features = ["derive"] }
serde_json = "1"
local-ip-address = "0.5"
dirs = "5"
lazy_static = "1"
