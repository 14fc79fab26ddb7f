[package]
name = "rtmp_core"
version = "0.1.0"
edition = "2021"
publish = false

[dependencies]
byteorder = "1"
bytes = "1"
rml_amf0 = "*"
