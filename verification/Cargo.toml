[package]
name = "filearco"
version = "0.1.0"
edition = "2021"

[dependencies]
crc = "1"
page_size = "*"
memmap = "*"
memadvise = "*"
walkdir = "*"
clap = "2"

[dev-dependencies]
bincode = "1"
