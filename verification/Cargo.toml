[package]
name = "toy-speechcli"
version = "0.1.0"
edition = "2021"
publish = false

[dependencies]
pulldown-cmark = { version = "*", default-features = false }
syntect = { version = "5", default-features = false, features = ["default-fancy"] }
crossterm = "*"
