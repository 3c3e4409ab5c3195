[package]
name = "badgerkv"
version = "0.1.0"
edition = "2021"
publish = false

[dependencies]
crc = "3"
rand = "0.8"
memmap2 = "0.9"
