[package]
name = "dram-mapper"
version = "0.2.0"
edition = "2021"

[dependencies]
libc = "0.2"
ctrlc = "3"
