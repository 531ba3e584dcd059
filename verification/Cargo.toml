[package]
name = "tinyget"
version = "0.1.0"
edition = "2021"
publish = false

[dependencies]
unicode-width = "*"
slint = { version = "1", default-features = false, features = ["std", "compat-1-2"] }
