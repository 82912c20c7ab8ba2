[package]
name = "if_watch"
version = "0.1.0"
edition = "2021"
publish = false

[dependencies]
futures = "0.3"
ipnet = "2"
