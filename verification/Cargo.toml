[package]
name = "lightwire"
version = "0.1.0"
edition = "2021"
publish = false

[dependencies]
cpal = "0.15"
jittr = "*"
opus = "0.3"
rand = "0.9"
rodio = "0.20"
tokio = { version = "1", features = ["full"] }
