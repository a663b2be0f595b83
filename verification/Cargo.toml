[package]
name = "tactus"
version = "0.1.0"
edition = "2021"
publish = false

[dependencies]
getrandom = "0.3"
socket2 = { version = "0.6", features = ["all"] }
