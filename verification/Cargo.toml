[package]
name = "zmodem"
version = "0.1.0"
edition = "2021"
publish = false

[dependencies]
binread = "2"
crc = "3"
hex = "0.4"
tinyvec = "1"
