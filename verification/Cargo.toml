[package]
name = "led_strip"
version = "0.1.0"
edition = "2021"
publish = false

[dependencies]
indexmap = "*"

[dev-dependencies]
serde_json = "*"
