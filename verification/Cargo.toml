[package]
name = "btfdump"
version = "0.1.0"
edition = "2021"
publish = false

[dependencies]
object = "*"
regex = "1"
scroll = "*"
scroll_derive = "*"
