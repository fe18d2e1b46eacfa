[package]
name = "h7cad"
version = "0.1.0"
edition = "2021"
publish = false

[dependencies]
acadrust = "=0.6.8"
ureq = "=2.12.1"
iced = { version = "=0.14.0", default-features = false, features = ["x11", "thread-pool"] }
