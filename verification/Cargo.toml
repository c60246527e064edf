[package]
name = "tsdb_engine"
version = "0.1.0"
edition = "2021"
publish = false

[dependencies]
byteorder = "1"
crc32fast = "1"
