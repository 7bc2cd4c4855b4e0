[package]
name = "sonny_jim"
version = "0.1.0"
edition = "2021"
publish = false

[dependencies]
foldhash = "*"
hashbrown = "*"
hex = "*"
memchr = "*"
