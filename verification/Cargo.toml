[package]
name = "json_diff"
version = "0.1.0"
edition = "2021"
publish = false

[dependencies]
chksum = "*"
colored = "*"
json = "*"
