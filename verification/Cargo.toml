[package]
name = "rawgallery"
version = "0.1.0"
edition = "2021"
publish = false

[dependencies]
quick-xml = "*"
image = "*"
uuid = { version = "*", features = ["v4"] }
rexiv2 = "*"
clap = "*"
