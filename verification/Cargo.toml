[package]
name = "iwls"
version = "0.1.0"
edition = "2021"
publish = false

[dependencies]
itertools = "*"
order-stat = "*"
clap = "*"
users = "*"
wifiscanner = "*"
