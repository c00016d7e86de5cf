[package]
name = "depviz"
version = "0.1.0"
edition = "2021"
publish = false

[dependencies]
approx = "*"
crc = "1.8"
itertools = "*"
json = "0.12"
lazy_static = "1.4"
md5 = "0.7"
nannou = "0.14"
